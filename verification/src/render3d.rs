use vstd::prelude::*;
use crate::config::{VoxelRenderConfig, View3, world_of, world_coord, lemma_world_mono};
use crate::handle::{RenderHandle, Shape, ShapeStorage, TapeStorage, Workspace};
use crate::interval::{iabs, imax, imin, Interval};
use crate::shape::{Aabb, Expr, eval, grad, lemma_simplify_eval, trace_valid};
use crate::tile::TileSizes;
use crate::render2d::{idx, in_tile, lemma_idx_bounds, lemma_idx_injective, blit_tile, tile_of, Rgb,
    lemma_grid_coords, lemma_tile_cover, lemma_pixel_tile, lemma_tw_bound,
    lemma_origin_bound};

verus! {

/// The shape's value at the center of voxel `(px, py, pz)` of an
/// `n`-wide cubic volume under view `v`.
pub open spec fn voxel_val(e: Expr, n: int, v: View3, px: int, py: int, pz: int) -> int {
    eval(
        e,
        world_of(v.sx as int, v.ox as int, n, px),
        world_of(v.sy as int, v.oy as int, n, py),
        world_of(v.sz as int, v.oz as int, n, pz),
    )
}

/// The heightmap contribution of the voxel column over `(px, py)` for
/// depths in `[z0, z1)`: one plus the highest voxel index whose value is
/// non-positive, or zero when the column has no such voxel.
pub open spec fn col_max(e: Expr, n: int, v: View3, px: int, py: int, z0: int, z1: int) -> int
    decreases z1 - z0,
{
    if z1 <= z0 {
        0
    } else if voxel_val(e, n, v, px, py, z1 - 1) <= 0 {
        z1
    } else {
        col_max(e, n, v, px, py, z0, z1 - 1)
    }
}

/// A column contribution is zero or lies in `(z0, z1]`.
pub proof fn lemma_col_bounds(e: Expr, n: int, v: View3, px: int, py: int, z0: int, z1: int)
    requires
        0 <= z0 <= z1,
    ensures
        0 <= col_max(e, n, v, px, py, z0, z1) <= z1,
        col_max(e, n, v, px, py, z0, z1) != 0 ==> col_max(e, n, v, px, py, z0, z1) > z0,
    decreases z1 - z0,
{
    if z1 > z0 && !(voxel_val(e, n, v, px, py, z1 - 1) <= 0) {
        lemma_col_bounds(e, n, v, px, py, z0, z1 - 1);
    }
}

/// Splitting a column range at `zm` composes by maximum.
pub proof fn lemma_col_split(
    e: Expr,
    n: int,
    v: View3,
    px: int,
    py: int,
    z0: int,
    zm: int,
    z1: int,
)
    requires
        0 <= z0 <= zm <= z1,
    ensures
        col_max(e, n, v, px, py, z0, z1) == imax(
            col_max(e, n, v, px, py, z0, zm),
            col_max(e, n, v, px, py, zm, z1),
        ),
    decreases z1 - zm,
{
    lemma_col_bounds(e, n, v, px, py, z0, zm);
    lemma_col_bounds(e, n, v, px, py, zm, z1);
    if z1 <= zm {
    } else if voxel_val(e, n, v, px, py, z1 - 1) <= 0 {
    } else {
        lemma_col_split(e, n, v, px, py, z0, zm, z1 - 1);
    }
}

/// Splitting composes under a clipping cap as well: ranges at or above
/// the cap contribute nothing.
pub proof fn lemma_col_split_clip(
    e: Expr,
    n: int,
    v: View3,
    px: int,
    py: int,
    z0: int,
    zm: int,
    z1: int,
    cap: int,
)
    requires
        0 <= z0 <= zm <= z1,
        0 <= cap,
    ensures
        col_max(e, n, v, px, py, z0, imin(z1, cap)) == imax(
            col_max(e, n, v, px, py, z0, imin(zm, cap)),
            col_max(e, n, v, px, py, zm, imin(z1, cap)),
        ),
{
    if zm < cap {
        lemma_col_split(e, n, v, px, py, z0, zm, imin(z1, cap));
    } else if cap <= z0 {
        assert(col_max(e, n, v, px, py, z0, imin(z1, cap)) == 0);
        assert(col_max(e, n, v, px, py, z0, imin(zm, cap)) == 0);
        assert(col_max(e, n, v, px, py, zm, imin(z1, cap)) == 0);
    } else {
        assert(col_max(e, n, v, px, py, zm, imin(z1, cap)) == 0);
        lemma_col_bounds(e, n, v, px, py, z0, cap);
    }
}

/// A column whose voxels are all inside contributes its top.
pub proof fn lemma_col_inside(e: Expr, n: int, v: View3, px: int, py: int, z0: int, z1: int)
    requires
        z0 < z1,
        voxel_val(e, n, v, px, py, z1 - 1) <= 0,
    ensures
        col_max(e, n, v, px, py, z0, z1) == z1,
{
}

/// A column whose voxels are all outside contributes nothing.
pub proof fn lemma_col_outside(e: Expr, n: int, v: View3, px: int, py: int, z0: int, z1: int)
    requires
        z0 <= z1,
        forall|pz: int| z0 <= pz < z1 ==> #[trigger] voxel_val(e, n, v, px, py, pz) > 0,
    ensures
        col_max(e, n, v, px, py, z0, z1) == 0,
    decreases z1 - z0,
{
    if z1 > z0 {
        lemma_col_outside(e, n, v, px, py, z0, z1 - 1);
    }
}

/// The first non-positive voxel met from the top fixes the column.
pub proof fn lemma_col_first_hit(
    e: Expr,
    n: int,
    v: View3,
    px: int,
    py: int,
    z0: int,
    z1: int,
    zi: int,
)
    requires
        z0 <= zi < z1,
        voxel_val(e, n, v, px, py, zi) <= 0,
        forall|pz: int| zi < pz < z1 ==> #[trigger] voxel_val(e, n, v, px, py, pz) > 0,
    ensures
        col_max(e, n, v, px, py, z0, z1) == zi + 1,
    decreases z1 - zi,
{
    if z1 - 1 > zi {
        lemma_col_first_hit(e, n, v, px, py, z0, z1 - 1, zi);
    }
}

/// Raises every height in a tile footprint to at least `val`, leaving
/// heights outside the footprint unchanged.
fn raise_heights(hbuf: &mut Vec<usize>, s0: usize, lx0: usize, ly0: usize, ts: usize, val: usize)
    requires
        s0 * s0 <= usize::MAX,
        old(hbuf)@.len() == s0 * s0,
        lx0 + ts <= s0,
        ly0 + ts <= s0,
    ensures
        final(hbuf)@.len() == old(hbuf)@.len(),
        forall|lx: int, ly: int|
            0 <= lx < s0 && 0 <= ly < s0 && in_tile(lx0 as int, ly0 as int, ts as int, lx, ly)
                ==> final(hbuf)@[#[trigger] idx(s0 as int, lx, ly)] as int == imax(
                old(hbuf)@[idx(s0 as int, lx, ly)] as int,
                val as int,
            ),
        forall|lx: int, ly: int|
            0 <= lx < s0 && 0 <= ly < s0 && !in_tile(lx0 as int, ly0 as int, ts as int, lx, ly)
                ==> final(hbuf)@[#[trigger] idx(s0 as int, lx, ly)] == old(hbuf)@[idx(
                s0 as int,
                lx,
                ly,
            )],
{
    broadcast use lemma_idx_bounds, lemma_idx_injective;

    let mut ly: usize = ly0;
    while ly < ly0 + ts
        invariant
            s0 * s0 <= usize::MAX,
            hbuf@.len() == s0 * s0,
            ly0 <= ly <= ly0 + ts,
            lx0 + ts <= s0,
            ly0 + ts <= s0,
            forall|lx2: int, ly2: int|
                0 <= lx2 < s0 && 0 <= ly2 < s0 && in_tile(
                    lx0 as int,
                    ly0 as int,
                    ts as int,
                    lx2,
                    ly2,
                ) && ly2 < ly ==> hbuf@[#[trigger] idx(s0 as int, lx2, ly2)] as int == imax(
                    old(hbuf)@[idx(s0 as int, lx2, ly2)] as int,
                    val as int,
                ),
            forall|lx2: int, ly2: int|
                0 <= lx2 < s0 && 0 <= ly2 < s0 && !(in_tile(
                    lx0 as int,
                    ly0 as int,
                    ts as int,
                    lx2,
                    ly2,
                ) && ly2 < ly) ==> hbuf@[#[trigger] idx(s0 as int, lx2, ly2)] == old(hbuf)@[idx(
                    s0 as int,
                    lx2,
                    ly2,
                )],
        decreases ly0 + ts - ly,
    {
        let mut lx: usize = lx0;
        while lx < lx0 + ts
            invariant
                s0 * s0 <= usize::MAX,
                hbuf@.len() == s0 * s0,
                lx0 <= lx <= lx0 + ts,
                ly0 <= ly < ly0 + ts,
                lx0 + ts <= s0,
                ly0 + ts <= s0,
                forall|lx2: int, ly2: int|
                    0 <= lx2 < s0 && 0 <= ly2 < s0 && in_tile(
                        lx0 as int,
                        ly0 as int,
                        ts as int,
                        lx2,
                        ly2,
                    ) && (ly2 < ly || (ly2 == ly && lx2 < lx)) ==> hbuf@[#[trigger] idx(
                        s0 as int,
                        lx2,
                        ly2,
                    )] as int == imax(old(hbuf)@[idx(s0 as int, lx2, ly2)] as int, val as int),
                forall|lx2: int, ly2: int|
                    0 <= lx2 < s0 && 0 <= ly2 < s0 && !(in_tile(
                        lx0 as int,
                        ly0 as int,
                        ts as int,
                        lx2,
                        ly2,
                    ) && (ly2 < ly || (ly2 == ly && lx2 < lx))) ==> hbuf@[#[trigger] idx(
                        s0 as int,
                        lx2,
                        ly2,
                    )] == old(hbuf)@[idx(s0 as int, lx2, ly2)],
            decreases lx0 + ts - lx,
        {
            proof {
                lemma_idx_bounds(s0 as int, lx as int, ly as int);
            }
            let i = lx + ly * s0;
            if hbuf[i] < val {
                hbuf[i] = val;
            }
            proof {
                assert(i as int == idx(s0 as int, lx as int, ly as int));
                assert forall|lx2: int, ly2: int|
                    0 <= lx2 < s0 && 0 <= ly2 < s0 && in_tile(
                        lx0 as int,
                        ly0 as int,
                        ts as int,
                        lx2,
                        ly2,
                    ) && (ly2 < ly || (ly2 == ly && lx2 < lx + 1)) implies hbuf@[#[trigger] idx(
                    s0 as int,
                    lx2,
                    ly2,
                )] as int == imax(old(hbuf)@[idx(s0 as int, lx2, ly2)] as int, val as int) by {
                    lemma_idx_bounds(s0 as int, lx2, ly2);
                    lemma_idx_injective(s0 as int, lx2, ly2, lx as int, ly as int);
                }
                assert forall|lx2: int, ly2: int|
                    0 <= lx2 < s0 && 0 <= ly2 < s0 && !(in_tile(
                        lx0 as int,
                        ly0 as int,
                        ts as int,
                        lx2,
                        ly2,
                    ) && (ly2 < ly || (ly2 == ly && lx2 < lx + 1))) implies hbuf@[#[trigger] idx(
                    s0 as int,
                    lx2,
                    ly2,
                )] == old(hbuf)@[idx(s0 as int, lx2, ly2)] by {
                    lemma_idx_bounds(s0 as int, lx2, ly2);
                    lemma_idx_injective(s0 as int, lx2, ly2, lx as int, ly as int);
                }
            }
            lx = lx + 1;
        }
        ly = ly + 1;
    }
}

/// The smallest height in a tile footprint.
fn min_height(hbuf: &Vec<usize>, s0: usize, lx0: usize, ly0: usize, ts: usize) -> (m: usize)
    requires
        s0 * s0 <= usize::MAX,
        hbuf@.len() == s0 * s0,
        lx0 + ts <= s0,
        ly0 + ts <= s0,
    ensures
        forall|lx: int, ly: int|
            0 <= lx < s0 && 0 <= ly < s0 && in_tile(lx0 as int, ly0 as int, ts as int, lx, ly)
                ==> m <= hbuf@[#[trigger] idx(s0 as int, lx, ly)],
{
    broadcast use lemma_idx_bounds;

    let mut m: usize = usize::MAX;
    let mut ly: usize = ly0;
    while ly < ly0 + ts
        invariant
            s0 * s0 <= usize::MAX,
            hbuf@.len() == s0 * s0,
            ly0 <= ly <= ly0 + ts,
            lx0 + ts <= s0,
            ly0 + ts <= s0,
            forall|lx2: int, ly2: int|
                0 <= lx2 < s0 && 0 <= ly2 < s0 && in_tile(
                    lx0 as int,
                    ly0 as int,
                    ts as int,
                    lx2,
                    ly2,
                ) && ly2 < ly ==> m <= hbuf@[#[trigger] idx(s0 as int, lx2, ly2)],
        decreases ly0 + ts - ly,
    {
        let mut lx: usize = lx0;
        while lx < lx0 + ts
            invariant
                s0 * s0 <= usize::MAX,
                hbuf@.len() == s0 * s0,
                lx0 <= lx <= lx0 + ts,
                ly0 <= ly < ly0 + ts,
                lx0 + ts <= s0,
                ly0 + ts <= s0,
                forall|lx2: int, ly2: int|
                    0 <= lx2 < s0 && 0 <= ly2 < s0 && in_tile(
                        lx0 as int,
                        ly0 as int,
                        ts as int,
                        lx2,
                        ly2,
                    ) && (ly2 < ly || (ly2 == ly && lx2 < lx)) ==> m <= hbuf@[#[trigger] idx(
                        s0 as int,
                        lx2,
                        ly2,
                    )],
            decreases lx0 + ts - lx,
        {
            proof {
                lemma_idx_bounds(s0 as int, lx as int, ly as int);
            }
            let i = lx + ly * s0;
            if hbuf[i] < m {
                m = hbuf[i];
            }
            proof {
                assert(i as int == idx(s0 as int, lx as int, ly as int));
            }
            lx = lx + 1;
        }
        ly = ly + 1;
    }
    m
}

/// The lower end of the column range already folded into the heightmap
/// for local pixel `(lx, ly)`, while a tile at local origin
/// `(lx0, ly0)` of edge `ts = k * nts` descends into its sub-tiles:
/// rows of sub-tiles before `j` and sub-tiles before `i` in row `j`
/// carry the whole tile column, the current sub-tile carries the top
/// `l` slabs, and the rest carries nothing yet.
pub open spec fn descend_zlow(
    lx0: int,
    ly0: int,
    nts: int,
    k: int,
    ts: int,
    gz0: int,
    j: int,
    i: int,
    l: int,
    lx: int,
    ly: int,
) -> int {
    if ly < ly0 + j * nts {
        gz0
    } else if ly < ly0 + (j + 1) * nts && lx < lx0 + i * nts {
        gz0
    } else if ly < ly0 + (j + 1) * nts && lx < lx0 + (i + 1) * nts {
        gz0 + (k - l) * nts
    } else {
        gz0 + ts
    }
}

/// Renders one cubic tile at `level` into the root tile's heightmap:
/// afterwards each height in the tile's footprint is the maximum of its
/// old value and the tile's column contribution; everything else is
/// untouched.
///
/// An interval test can settle the whole tile (all inside: the column
/// tops out at the tile's upper face; all outside: no contribution); an
/// occluded tile, wholly below every current height in its footprint,
/// is skipped; otherwise the tile is simplified under the trace and
/// descends, or, at the deepest level, scans each voxel column from the
/// top, stopping at the first hit.
#[verifier::rlimit(100)]
fn render_tile3_rec(
    handle: &mut RenderHandle,
    tiles: &TileSizes,
    level: usize,
    n: usize,
    v: View3,
    gx0: usize,
    gy0: usize,
    gz0: usize,
    lx0: usize,
    ly0: usize,
    hbuf: &mut Vec<usize>,
    ws: &mut Workspace,
    sp: &mut Vec<ShapeStorage>,
    tp: &mut Vec<TapeStorage>,
    root: Ghost<Expr>,
)
    requires
        level < tiles@.len(),
        tiles@[0] <= 0x7fff_ffff,
        tiles@[0] * tiles@[0] <= usize::MAX,
        n <= 0x7fff_ffff,
        v.wf(),
        gx0 <= n,
        gy0 <= n,
        gz0 + tiles@[level as int] <= 0xffff_ffff,
        lx0 + tiles@[level as int] <= tiles@[0],
        ly0 + tiles@[level as int] <= tiles@[0],
        old(hbuf)@.len() == tiles@[0] * tiles@[0],
        old(handle).wf(),
        forall|px: int, py: int, pz: int|
            gx0 + lx0 <= px < gx0 + lx0 + tiles@[level as int] && gy0 + ly0 <= py < gy0 + ly0
                + tiles@[level as int] && gz0 <= pz < gz0 + tiles@[level as int]
                ==> #[trigger] voxel_val(old(handle).expr_of(), n as int, v, px, py, pz)
                == voxel_val(root@, n as int, v, px, py, pz),
    ensures
        final(handle).wf(),
        final(handle).expr_of() == old(handle).expr_of(),
        final(hbuf)@.len() == old(hbuf)@.len(),
        forall|lx: int, ly: int|
            0 <= lx < tiles@[0] && 0 <= ly < tiles@[0] && in_tile(
                lx0 as int,
                ly0 as int,
                tiles@[level as int] as int,
                lx,
                ly,
            ) ==> final(hbuf)@[#[trigger] idx(tiles@[0] as int, lx, ly)] as int == imax(
                old(hbuf)@[idx(tiles@[0] as int, lx, ly)] as int,
                col_max(
                    root@,
                    n as int,
                    v,
                    gx0 + lx,
                    gy0 + ly,
                    gz0 as int,
                    imin(gz0 + tiles@[level as int], n as int),
                ),
            ),
        forall|lx: int, ly: int|
            0 <= lx < tiles@[0] && 0 <= ly < tiles@[0] && !in_tile(
                lx0 as int,
                ly0 as int,
                tiles@[level as int] as int,
                lx,
                ly,
            ) ==> final(hbuf)@[#[trigger] idx(tiles@[0] as int, lx, ly)] == old(hbuf)@[idx(
                tiles@[0] as int,
                lx,
                ly,
            )],
    decreases tiles@.len() - level,
{
    broadcast use lemma_idx_bounds, lemma_idx_injective;

    let nlev = tiles.len();
    let s0 = tiles.get(0).unwrap();
    let ts = tiles.get(level).unwrap();
    proof {
        use_type_invariant(tiles);
        assert(ts as int == tiles@[level as int] && ts > 0);
    }
    let px0 = gx0 + lx0;
    let py0 = gy0 + ly0;
    let xlo = world_coord(v.sx, v.ox, n, px0);
    let xhi = world_coord(v.sx, v.ox, n, px0 + ts - 1);
    let ylo = world_coord(v.sy, v.oy, n, py0);
    let yhi = world_coord(v.sy, v.oy, n, py0 + ts - 1);
    let zlo = world_coord(v.sz, v.oz, n, gz0);
    let zhi = world_coord(v.sz, v.oz, n, gz0 + ts - 1);
    proof {
        lemma_world_mono(v.sx as int, v.ox as int, n as int, px0 as int, px0 + ts - 1);
        lemma_world_mono(v.sy as int, v.oy as int, n as int, py0 as int, py0 + ts - 1);
        lemma_world_mono(v.sz as int, v.oz as int, n as int, gz0 as int, gz0 + ts - 1);
    }
    let bx = Aabb {
        x: Interval::make(xlo, xhi),
        y: Interval::make(ylo, yhi),
        z: Interval::make(zlo, zhi),
    };
    proof {
        assert forall|px: int, py: int, pz: int|
            #![trigger world_of(v.sx as int, v.ox as int, n as int, px), world_of(v.sy as int, v.oy as int, n as int, py), world_of(v.sz as int, v.oz as int, n as int, pz)]
            px0 <= px < px0 + ts && py0 <= py < py0 + ts && gz0 <= pz < gz0 + ts implies bx.holds(
            world_of(v.sx as int, v.ox as int, n as int, px),
            world_of(v.sy as int, v.oy as int, n as int, py),
            world_of(v.sz as int, v.oz as int, n as int, pz),
        ) by {
            lemma_world_mono(v.sx as int, v.ox as int, n as int, px0 as int, px);
            lemma_world_mono(v.sx as int, v.ox as int, n as int, px, px0 + ts - 1);
            lemma_world_mono(v.sy as int, v.oy as int, n as int, py0 as int, py);
            lemma_world_mono(v.sy as int, v.oy as int, n as int, py, py0 + ts - 1);
            lemma_world_mono(v.sz as int, v.oz as int, n as int, gz0 as int, pz);
            lemma_world_mono(v.sz as int, v.oz as int, n as int, pz, gz0 + ts - 1);
        }
    }
    let (iv, trace) = {
        let t = handle.i_tape(tp);
        t.eval_interval(&bx)
    };
    let ghost e0 = handle.expr_of();
    // Columns are clipped at the volume's configured depth: voxels at or
    // above `n` never contribute a height.
    let ztop = if gz0 + ts > n {
        n
    } else {
        gz0 + ts
    };
    proof {
        assert(ztop as int == imin(gz0 + ts, n as int));
    }
    if iv.hi <= 0 {
        if ztop > gz0 {
            raise_heights(hbuf, s0, lx0, ly0, ts, ztop);
        }
        proof {
            assert forall|lx: int, ly: int|
                0 <= lx < s0 && 0 <= ly < s0 && in_tile(
                    lx0 as int,
                    ly0 as int,
                    ts as int,
                    lx,
                    ly,
                ) implies hbuf@[#[trigger] idx(s0 as int, lx, ly)] as int == imax(
                old(hbuf)@[idx(s0 as int, lx, ly)] as int,
                col_max(root@, n as int, v, gx0 + lx, gy0 + ly, gz0 as int, ztop as int),
            ) by {
                let px = gx0 + lx;
                let py = gy0 + ly;
                if ztop > gz0 {
                    assert(bx.holds(
                        world_of(v.sx as int, v.ox as int, n as int, px),
                        world_of(v.sy as int, v.oy as int, n as int, py),
                        world_of(v.sz as int, v.oz as int, n as int, ztop - 1),
                    ));
                    assert(iv.holds(eval(
                        e0,
                        world_of(v.sx as int, v.ox as int, n as int, px),
                        world_of(v.sy as int, v.oy as int, n as int, py),
                        world_of(v.sz as int, v.oz as int, n as int, ztop - 1),
                    )));
                    assert(voxel_val(e0, n as int, v, px, py, ztop - 1) <= 0);
                    assert(voxel_val(root@, n as int, v, px, py, ztop - 1) <= 0);
                    lemma_col_inside(root@, n as int, v, px, py, gz0 as int, ztop as int);
                } else {
                    assert(col_max(root@, n as int, v, px, py, gz0 as int, ztop as int) == 0);
                    lemma_idx_bounds(s0 as int, lx, ly);
                }
            }
        }
    } else if iv.lo >= 1 {
        proof {
            assert forall|lx: int, ly: int|
                0 <= lx < s0 && 0 <= ly < s0 && in_tile(
                    lx0 as int,
                    ly0 as int,
                    ts as int,
                    lx,
                    ly,
                ) implies hbuf@[#[trigger] idx(s0 as int, lx, ly)] as int == imax(
                old(hbuf)@[idx(s0 as int, lx, ly)] as int,
                col_max(root@, n as int, v, gx0 + lx, gy0 + ly, gz0 as int, ztop as int),
            ) by {
                let px = gx0 + lx;
                let py = gy0 + ly;
                assert forall|pz: int| gz0 <= pz < gz0 + ts implies #[trigger] voxel_val(
                    root@,
                    n as int,
                    v,
                    px,
                    py,
                    pz,
                ) > 0 by {
                    assert(bx.holds(
                        world_of(v.sx as int, v.ox as int, n as int, px),
                        world_of(v.sy as int, v.oy as int, n as int, py),
                        world_of(v.sz as int, v.oz as int, n as int, pz),
                    ));
                    assert(iv.holds(eval(
                        e0,
                        world_of(v.sx as int, v.ox as int, n as int, px),
                        world_of(v.sy as int, v.oy as int, n as int, py),
                        world_of(v.sz as int, v.oz as int, n as int, pz),
                    )));
                    assert(voxel_val(e0, n as int, v, px, py, pz) > 0);
                }
                if gz0 as int <= ztop as int {
                    lemma_col_outside(root@, n as int, v, px, py, gz0 as int, ztop as int);
                } else {
                    assert(col_max(root@, n as int, v, px, py, gz0 as int, ztop as int) == 0);
                }
                lemma_idx_bounds(s0 as int, lx, ly);
            }
        }
    } else {
        let m = min_height(hbuf, s0, lx0, ly0, ts);
        if ztop <= m {
            // Occluded: every height under this footprint already meets
            // or beats anything this tile could contribute.
            proof {
                assert forall|lx: int, ly: int|
                    0 <= lx < s0 && 0 <= ly < s0 && in_tile(
                        lx0 as int,
                        ly0 as int,
                        ts as int,
                        lx,
                        ly,
                    ) implies hbuf@[#[trigger] idx(s0 as int, lx, ly)] as int == imax(
                    old(hbuf)@[idx(s0 as int, lx, ly)] as int,
                    col_max(root@, n as int, v, gx0 + lx, gy0 + ly, gz0 as int, ztop as int),
                ) by {
                    if gz0 as int <= ztop as int {
                        lemma_col_bounds(
                            root@,
                            n as int,
                            v,
                            gx0 + lx,
                            gy0 + ly,
                            gz0 as int,
                            ztop as int,
                        );
                    } else {
                        assert(col_max(root@, n as int, v, gx0 + lx, gy0 + ly, gz0 as int, ztop as int) == 0);
                    }
                    lemma_idx_bounds(s0 as int, lx, ly);
                }
            }
        } else if level + 1 < nlev {
            let lvl1 = level + 1;
            let nts = tiles.get(lvl1).unwrap();
            let k = ts / nts;
            proof {
                assert(nts as int == tiles@[level as int + 1] && nts > 0 && nts < ts && ts as int
                    % nts as int == 0);
                vstd::arithmetic::div_mod::lemma_fundamental_div_mod(ts as int, nts as int);
                assert(ts as int == nts as int * (k as int));
                assert(k as int * nts as int == ts as int) by (nonlinear_arith)
                    requires
                        ts as int == nts as int * (k as int),
                ;
            }
            let mut j: usize = 0;
            while j < k
                invariant
                    tiles@[0] == s0 && tiles@[level as int] == ts && level < tiles@.len(),
                    level + 1 < tiles@.len() && tiles@[level as int + 1] == nts,
                    lvl1 == level + 1,
                    0 < nts < ts,
                    0 <= j <= k,
                    k as int * nts as int == ts as int,
                    s0 <= 0x7fff_ffff,
                    s0 * s0 <= usize::MAX,
                    n <= 0x7fff_ffff,
                    v.wf(),
                    gx0 <= n,
                    gy0 <= n,
                    gz0 + ts <= 0xffff_ffff,
                    ztop as int == imin(gz0 + ts, n as int),
                    lx0 + ts <= s0,
                    ly0 + ts <= s0,
                    hbuf@.len() == s0 * s0,
                    handle.wf(),
                    handle.expr_of() == e0,
                    trace_valid(e0, trace, bx),
                    forall|px: int, py: int, pz: int|
                        gx0 + lx0 <= px < gx0 + lx0 + ts && gy0 + ly0 <= py < gy0 + ly0 + ts
                            && gz0 <= pz < gz0 + ts ==> #[trigger] voxel_val(
                            e0,
                            n as int,
                            v,
                            px,
                            py,
                            pz,
                        ) == voxel_val(root@, n as int, v, px, py, pz),
                    forall|px: int, py: int, pz: int|
                        #![trigger world_of(v.sx as int, v.ox as int, n as int, px), world_of(v.sy as int, v.oy as int, n as int, py), world_of(v.sz as int, v.oz as int, n as int, pz)]
                        px0 <= px < px0 + ts && py0 <= py < py0 + ts && gz0 <= pz < gz0 + ts
                            ==> bx.holds(
                            world_of(v.sx as int, v.ox as int, n as int, px),
                            world_of(v.sy as int, v.oy as int, n as int, py),
                            world_of(v.sz as int, v.oz as int, n as int, pz),
                        ),
                    px0 == gx0 + lx0 && py0 == gy0 + ly0,
                    forall|lx: int, ly: int|
                        0 <= lx < s0 && 0 <= ly < s0 && in_tile(
                            lx0 as int,
                            ly0 as int,
                            ts as int,
                            lx,
                            ly,
                        ) ==> hbuf@[#[trigger] idx(s0 as int, lx, ly)] as int == imax(
                            old(hbuf)@[idx(s0 as int, lx, ly)] as int,
                            col_max(
                                root@,
                                n as int,
                                v,
                                gx0 + lx,
                                gy0 + ly,
                                descend_zlow(
                                    lx0 as int,
                                    ly0 as int,
                                    nts as int,
                                    k as int,
                                    ts as int,
                                    gz0 as int,
                                    j as int,
                                    0,
                                    0,
                                    lx,
                                    ly,
                                ),
                                ztop as int,
                            ),
                        ),
                    forall|lx: int, ly: int|
                        0 <= lx < s0 && 0 <= ly < s0 && !in_tile(
                            lx0 as int,
                            ly0 as int,
                            ts as int,
                            lx,
                            ly,
                        ) ==> hbuf@[#[trigger] idx(s0 as int, lx, ly)] == old(hbuf)@[idx(
                            s0 as int,
                            lx,
                            ly,
                        )],
                decreases k - j,
            {
                proof {
                    assert(0 <= j as int * nts as int && j as int * nts as int + nts as int
                        <= k as int * nts as int) by (nonlinear_arith)
                        requires
                            0 <= j < k,
                            0 < nts,
                    ;
                }
                let mut i: usize = 0;
                while i < k
                    invariant
                        tiles@[0] == s0 && tiles@[level as int] == ts && level < tiles@.len(),
                        level + 1 < tiles@.len() && tiles@[level as int + 1] == nts,
                        lvl1 == level + 1,
                        0 < nts < ts,
                        0 <= i <= k,
                        0 <= j < k,
                        k as int * nts as int == ts as int,
                        j as int * nts as int + nts as int <= ts as int,
                        s0 <= 0x7fff_ffff,
                        s0 * s0 <= usize::MAX,
                        n <= 0x7fff_ffff,
                        v.wf(),
                        gx0 <= n,
                        gy0 <= n,
                        gz0 + ts <= 0xffff_ffff,
                        ztop as int == imin(gz0 + ts, n as int),
                        lx0 + ts <= s0,
                        ly0 + ts <= s0,
                        hbuf@.len() == s0 * s0,
                        handle.wf(),
                        handle.expr_of() == e0,
                        trace_valid(e0, trace, bx),
                        forall|px: int, py: int, pz: int|
                            gx0 + lx0 <= px < gx0 + lx0 + ts && gy0 + ly0 <= py < gy0 + ly0 + ts
                                && gz0 <= pz < gz0 + ts ==> #[trigger] voxel_val(
                                e0,
                                n as int,
                                v,
                                px,
                                py,
                                pz,
                            ) == voxel_val(root@, n as int, v, px, py, pz),
                        forall|px: int, py: int, pz: int|
                            #![trigger world_of(v.sx as int, v.ox as int, n as int, px), world_of(v.sy as int, v.oy as int, n as int, py), world_of(v.sz as int, v.oz as int, n as int, pz)]
                            px0 <= px < px0 + ts && py0 <= py < py0 + ts && gz0 <= pz < gz0 + ts
                                ==> bx.holds(
                                world_of(v.sx as int, v.ox as int, n as int, px),
                                world_of(v.sy as int, v.oy as int, n as int, py),
                                world_of(v.sz as int, v.oz as int, n as int, pz),
                            ),
                        px0 == gx0 + lx0 && py0 == gy0 + ly0,
                        forall|lx: int, ly: int|
                            0 <= lx < s0 && 0 <= ly < s0 && in_tile(
                                lx0 as int,
                                ly0 as int,
                                ts as int,
                                lx,
                                ly,
                            ) ==> hbuf@[#[trigger] idx(s0 as int, lx, ly)] as int == imax(
                                old(hbuf)@[idx(s0 as int, lx, ly)] as int,
                                col_max(
                                    root@,
                                    n as int,
                                    v,
                                    gx0 + lx,
                                    gy0 + ly,
                                    descend_zlow(
                                        lx0 as int,
                                        ly0 as int,
                                        nts as int,
                                        k as int,
                                        ts as int,
                                        gz0 as int,
                                        j as int,
                                        i as int,
                                        0,
                                        lx,
                                        ly,
                                    ),
                                    ztop as int,
                                ),
                            ),
                        forall|lx: int, ly: int|
                            0 <= lx < s0 && 0 <= ly < s0 && !in_tile(
                                lx0 as int,
                                ly0 as int,
                                ts as int,
                                lx,
                                ly,
                            ) ==> hbuf@[#[trigger] idx(s0 as int, lx, ly)] == old(hbuf)@[idx(
                                s0 as int,
                                lx,
                                ly,
                            )],
                    decreases k - i,
                {
                    proof {
                        assert(0 <= i as int * nts as int && i as int * nts as int + nts as int
                            <= k as int * nts as int) by (nonlinear_arith)
                            requires
                                0 <= i < k,
                                0 < nts,
                        ;
                    }
                    let slx = lx0 + i * nts;
                    let sly = ly0 + j * nts;
                    let mut l: usize = 0;
                    while l < k
                        invariant
                            tiles@[0] == s0 && tiles@[level as int] == ts && level < tiles@.len(),
                            level + 1 < tiles@.len() && tiles@[level as int + 1] == nts,
                            lvl1 == level + 1,
                            0 < nts < ts,
                            0 <= l <= k,
                            0 <= i < k,
                            0 <= j < k,
                            k as int * nts as int == ts as int,
                            j as int * nts as int + nts as int <= ts as int,
                            i as int * nts as int + nts as int <= ts as int,
                            slx == lx0 + i * nts,
                            sly == ly0 + j * nts,
                            s0 <= 0x7fff_ffff,
                            s0 * s0 <= usize::MAX,
                            n <= 0x7fff_ffff,
                            v.wf(),
                            gx0 <= n,
                            gy0 <= n,
                            gz0 + ts <= 0xffff_ffff,
                            ztop as int == imin(gz0 + ts, n as int),
                            lx0 + ts <= s0,
                            ly0 + ts <= s0,
                            hbuf@.len() == s0 * s0,
                            handle.wf(),
                            handle.expr_of() == e0,
                            trace_valid(e0, trace, bx),
                            forall|px: int, py: int, pz: int|
                                gx0 + lx0 <= px < gx0 + lx0 + ts && gy0 + ly0 <= py < gy0 + ly0
                                    + ts && gz0 <= pz < gz0 + ts ==> #[trigger] voxel_val(
                                    e0,
                                    n as int,
                                    v,
                                    px,
                                    py,
                                    pz,
                                ) == voxel_val(root@, n as int, v, px, py, pz),
                            forall|px: int, py: int, pz: int|
                                #![trigger world_of(v.sx as int, v.ox as int, n as int, px), world_of(v.sy as int, v.oy as int, n as int, py), world_of(v.sz as int, v.oz as int, n as int, pz)]
                                px0 <= px < px0 + ts && py0 <= py < py0 + ts && gz0 <= pz < gz0
                                    + ts ==> bx.holds(
                                    world_of(v.sx as int, v.ox as int, n as int, px),
                                    world_of(v.sy as int, v.oy as int, n as int, py),
                                    world_of(v.sz as int, v.oz as int, n as int, pz),
                                ),
                            px0 == gx0 + lx0 && py0 == gy0 + ly0,
                            forall|lx: int, ly: int|
                                0 <= lx < s0 && 0 <= ly < s0 && in_tile(
                                    lx0 as int,
                                    ly0 as int,
                                    ts as int,
                                    lx,
                                    ly,
                                ) ==> hbuf@[#[trigger] idx(s0 as int, lx, ly)] as int == imax(
                                    old(hbuf)@[idx(s0 as int, lx, ly)] as int,
                                    col_max(
                                        root@,
                                        n as int,
                                        v,
                                        gx0 + lx,
                                        gy0 + ly,
                                        descend_zlow(
                                            lx0 as int,
                                            ly0 as int,
                                            nts as int,
                                            k as int,
                                            ts as int,
                                            gz0 as int,
                                            j as int,
                                            i as int,
                                            l as int,
                                            lx,
                                            ly,
                                        ),
                                        ztop as int,
                                    ),
                                ),
                            forall|lx: int, ly: int|
                                0 <= lx < s0 && 0 <= ly < s0 && !in_tile(
                                    lx0 as int,
                                    ly0 as int,
                                    ts as int,
                                    lx,
                                    ly,
                                ) ==> hbuf@[#[trigger] idx(s0 as int, lx, ly)] == old(hbuf)@[idx(
                                    s0 as int,
                                    lx,
                                    ly,
                                )],
                        decreases k - l,
                    {
                        proof {
                            assert(0 <= l as int * nts as int && l as int * nts as int
                                + nts as int <= k as int * nts as int && (k as int - l as int - 1)
                                * nts as int + nts as int == (k as int - l as int)
                                * nts as int && (k as int - l as int) * nts as int
                                <= ts as int && (i as int + 1) * nts as int == i as int
                                * nts as int + nts as int && (j as int + 1) * nts as int
                                == j as int * nts as int + nts as int) by (nonlinear_arith)
                                requires
                                    0 <= l < k,
                                    0 <= i < k,
                                    0 <= j < k,
                                    0 < nts,
                                    k as int * nts as int == ts as int,
                            ;
                        }
                        let sgz = gz0 + (k - 1 - l) * nts;
                        let ghost pre = hbuf@;
                        let sub = if trace.has_decision() {
                            handle.simplify(&trace, ws, sp, tp)
                        } else {
                            &mut *handle
                        };
                        proof {
                            assert forall|px: int, py: int, pz: int|
                                gx0 + slx <= px < gx0 + slx + nts && gy0 + sly <= py < gy0 + sly
                                    + nts && sgz <= pz < sgz + nts implies #[trigger] voxel_val(
                                sub.expr_of(),
                                n as int,
                                v,
                                px,
                                py,
                                pz,
                            ) == voxel_val(root@, n as int, v, px, py, pz) by {
                                if sub.expr_of() != e0 {
                                    lemma_simplify_eval(
                                        e0,
                                        trace,
                                        bx,
                                        world_of(v.sx as int, v.ox as int, n as int, px),
                                        world_of(v.sy as int, v.oy as int, n as int, py),
                                        world_of(v.sz as int, v.oz as int, n as int, pz),
                                    );
                                }
                                assert(voxel_val(e0, n as int, v, px, py, pz) == voxel_val(
                                    root@,
                                    n as int,
                                    v,
                                    px,
                                    py,
                                    pz,
                                ));
                            }
                        }
                        render_tile3_rec(
                            sub,
                            tiles,
                            lvl1,
                            n,
                            v,
                            gx0,
                            gy0,
                            sgz,
                            slx,
                            sly,
                            hbuf,
                            ws,
                            sp,
                            tp,
                            root,
                        );
                        proof {
                            assert forall|lx: int, ly: int|
                                0 <= lx < s0 && 0 <= ly < s0 && in_tile(
                                    lx0 as int,
                                    ly0 as int,
                                    ts as int,
                                    lx,
                                    ly,
                                ) implies hbuf@[#[trigger] idx(s0 as int, lx, ly)] as int == imax(
                                old(hbuf)@[idx(s0 as int, lx, ly)] as int,
                                col_max(
                                    root@,
                                    n as int,
                                    v,
                                    gx0 + lx,
                                    gy0 + ly,
                                    descend_zlow(
                                        lx0 as int,
                                        ly0 as int,
                                        nts as int,
                                        k as int,
                                        ts as int,
                                        gz0 as int,
                                        j as int,
                                        i as int,
                                        l as int + 1,
                                        lx,
                                        ly,
                                    ),
                                    ztop as int,
                                ),
                            ) by {
                                lemma_idx_bounds(s0 as int, lx, ly);
                                if in_tile(slx as int, sly as int, nts as int, lx, ly) {
                                    lemma_col_split_clip(
                                        root@,
                                        n as int,
                                        v,
                                        gx0 + lx,
                                        gy0 + ly,
                                        sgz as int,
                                        sgz + nts,
                                        gz0 + ts,
                                        n as int,
                                    );
                                } else {
                                    assert(hbuf@[idx(s0 as int, lx, ly)] == pre[idx(
                                        s0 as int,
                                        lx,
                                        ly,
                                    )]);
                                }
                            }
                            assert forall|lx: int, ly: int|
                                0 <= lx < s0 && 0 <= ly < s0 && !in_tile(
                                    lx0 as int,
                                    ly0 as int,
                                    ts as int,
                                    lx,
                                    ly,
                                ) implies hbuf@[#[trigger] idx(s0 as int, lx, ly)] == old(
                                hbuf,
                            )@[idx(s0 as int, lx, ly)] by {
                                lemma_idx_bounds(s0 as int, lx, ly);
                                assert(hbuf@[idx(s0 as int, lx, ly)] == pre[idx(s0 as int, lx, ly)]);
                            }
                        }
                        l = l + 1;
                    }
                    proof {
                        assert((i as int + 1) * nts as int == i as int * nts as int + nts as int
                            && (i as int + 2) * nts as int == (i as int + 1) * nts as int
                            + nts as int && (k as int - k as int) * nts as int == 0 && (k as int
                            - 0) * nts as int == ts as int) by (nonlinear_arith)
                            requires
                                k as int * nts as int == ts as int,
                        ;
                        assert forall|lx: int, ly: int|
                            0 <= lx < s0 && 0 <= ly < s0 && in_tile(
                                lx0 as int,
                                ly0 as int,
                                ts as int,
                                lx,
                                ly,
                            ) implies descend_zlow(
                            lx0 as int,
                            ly0 as int,
                            nts as int,
                            k as int,
                            ts as int,
                            gz0 as int,
                            j as int,
                            i as int + 1,
                            0,
                            lx,
                            ly,
                        ) == descend_zlow(
                            lx0 as int,
                            ly0 as int,
                            nts as int,
                            k as int,
                            ts as int,
                            gz0 as int,
                            j as int,
                            i as int,
                            k as int,
                            lx,
                            ly,
                        ) by {}
                    }
                    i = i + 1;
                }
                proof {
                    assert((j as int + 1) * nts as int == j as int * nts as int + nts as int && (
                    j as int + 2) * nts as int == (j as int + 1) * nts as int + nts as int && (
                    k as int + 1) * nts as int == k as int * nts as int + nts as int && (k as int
                        - 0) * nts as int == ts as int) by (nonlinear_arith)
                        requires
                            k as int * nts as int == ts as int,
                    ;
                    assert forall|lx: int, ly: int|
                        0 <= lx < s0 && 0 <= ly < s0 && in_tile(
                            lx0 as int,
                            ly0 as int,
                            ts as int,
                            lx,
                            ly,
                        ) implies descend_zlow(
                        lx0 as int,
                        ly0 as int,
                        nts as int,
                        k as int,
                        ts as int,
                        gz0 as int,
                        j as int + 1,
                        0,
                        0,
                        lx,
                        ly,
                    ) == descend_zlow(
                        lx0 as int,
                        ly0 as int,
                        nts as int,
                        k as int,
                        ts as int,
                        gz0 as int,
                        j as int,
                        k as int,
                        0,
                        lx,
                        ly,
                    ) by {}
                }
                j = j + 1;
            }
            proof {
                assert(k as int * nts as int == ts as int);
                assert forall|lx: int, ly: int|
                    0 <= lx < s0 && 0 <= ly < s0 && in_tile(
                        lx0 as int,
                        ly0 as int,
                        ts as int,
                        lx,
                        ly,
                    ) implies descend_zlow(
                    lx0 as int,
                    ly0 as int,
                    nts as int,
                    k as int,
                    ts as int,
                    gz0 as int,
                    k as int,
                    0,
                    0,
                    lx,
                    ly,
                ) == gz0 as int by {}
            }
        } else {
            // Deepest level: scan each voxel column from the top.
            let mut ly: usize = ly0;
            while ly < ly0 + ts
                invariant
                    tiles@[0] == s0 && tiles@[level as int] == ts && level < tiles@.len(),
                    0 < ts,
                    ly0 <= ly <= ly0 + ts,
                    s0 <= 0x7fff_ffff,
                    s0 * s0 <= usize::MAX,
                    n <= 0x7fff_ffff,
                    v.wf(),
                    gx0 <= n,
                    gy0 <= n,
                    gz0 + ts <= 0xffff_ffff,
                    ztop as int == imin(gz0 + ts, n as int),
                    lx0 + ts <= s0,
                    ly0 + ts <= s0,
                    hbuf@.len() == s0 * s0,
                    handle.wf(),
                    handle.expr_of() == e0,
                    trace_valid(e0, trace, bx),
                    forall|px: int, py: int, pz: int|
                        gx0 + lx0 <= px < gx0 + lx0 + ts && gy0 + ly0 <= py < gy0 + ly0 + ts
                            && gz0 <= pz < gz0 + ts ==> #[trigger] voxel_val(
                            e0,
                            n as int,
                            v,
                            px,
                            py,
                            pz,
                        ) == voxel_val(root@, n as int, v, px, py, pz),
                    forall|px: int, py: int, pz: int|
                        #![trigger world_of(v.sx as int, v.ox as int, n as int, px), world_of(v.sy as int, v.oy as int, n as int, py), world_of(v.sz as int, v.oz as int, n as int, pz)]
                        px0 <= px < px0 + ts && py0 <= py < py0 + ts && gz0 <= pz < gz0 + ts
                            ==> bx.holds(
                            world_of(v.sx as int, v.ox as int, n as int, px),
                            world_of(v.sy as int, v.oy as int, n as int, py),
                            world_of(v.sz as int, v.oz as int, n as int, pz),
                        ),
                    px0 == gx0 + lx0 && py0 == gy0 + ly0,
                    forall|lx: int, ly2: int|
                        0 <= lx < s0 && 0 <= ly2 < s0 && in_tile(
                            lx0 as int,
                            ly0 as int,
                            ts as int,
                            lx,
                            ly2,
                        ) && ly2 < ly ==> hbuf@[#[trigger] idx(s0 as int, lx, ly2)] as int == imax(
                            old(hbuf)@[idx(s0 as int, lx, ly2)] as int,
                            col_max(root@, n as int, v, gx0 + lx, gy0 + ly2, gz0 as int, ztop as int),
                        ),
                    forall|lx: int, ly2: int|
                        0 <= lx < s0 && 0 <= ly2 < s0 && !(in_tile(
                            lx0 as int,
                            ly0 as int,
                            ts as int,
                            lx,
                            ly2,
                        ) && ly2 < ly) ==> hbuf@[#[trigger] idx(s0 as int, lx, ly2)] == old(
                            hbuf,
                        )@[idx(s0 as int, lx, ly2)],
                decreases ly0 + ts - ly,
            {
                let mut lx: usize = lx0;
                while lx < lx0 + ts
                    invariant
                        tiles@[0] == s0 && tiles@[level as int] == ts && level < tiles@.len(),
                        0 < ts,
                        lx0 <= lx <= lx0 + ts,
                        ly0 <= ly < ly0 + ts,
                        s0 <= 0x7fff_ffff,
                        s0 * s0 <= usize::MAX,
                        n <= 0x7fff_ffff,
                        v.wf(),
                        gx0 <= n,
                        gy0 <= n,
                        gz0 + ts <= 0xffff_ffff,
                        ztop as int == imin(gz0 + ts, n as int),
                        lx0 + ts <= s0,
                        ly0 + ts <= s0,
                        hbuf@.len() == s0 * s0,
                        handle.wf(),
                        handle.expr_of() == e0,
                        trace_valid(e0, trace, bx),
                        forall|px: int, py: int, pz: int|
                            gx0 + lx0 <= px < gx0 + lx0 + ts && gy0 + ly0 <= py < gy0 + ly0 + ts
                                && gz0 <= pz < gz0 + ts ==> #[trigger] voxel_val(
                                e0,
                                n as int,
                                v,
                                px,
                                py,
                                pz,
                            ) == voxel_val(root@, n as int, v, px, py, pz),
                        forall|px: int, py: int, pz: int|
                            #![trigger world_of(v.sx as int, v.ox as int, n as int, px), world_of(v.sy as int, v.oy as int, n as int, py), world_of(v.sz as int, v.oz as int, n as int, pz)]
                            px0 <= px < px0 + ts && py0 <= py < py0 + ts && gz0 <= pz < gz0 + ts
                                ==> bx.holds(
                                world_of(v.sx as int, v.ox as int, n as int, px),
                                world_of(v.sy as int, v.oy as int, n as int, py),
                                world_of(v.sz as int, v.oz as int, n as int, pz),
                            ),
                        px0 == gx0 + lx0 && py0 == gy0 + ly0,
                        forall|lx2: int, ly2: int|
                            0 <= lx2 < s0 && 0 <= ly2 < s0 && in_tile(
                                lx0 as int,
                                ly0 as int,
                                ts as int,
                                lx2,
                                ly2,
                            ) && (ly2 < ly || (ly2 == ly && lx2 < lx)) ==> hbuf@[#[trigger] idx(
                                s0 as int,
                                lx2,
                                ly2,
                            )] as int == imax(
                                old(hbuf)@[idx(s0 as int, lx2, ly2)] as int,
                                col_max(
                                    root@,
                                    n as int,
                                    v,
                                    gx0 + lx2,
                                    gy0 + ly2,
                                    gz0 as int,
                                    ztop as int,
                                ),
                            ),
                        forall|lx2: int, ly2: int|
                            0 <= lx2 < s0 && 0 <= ly2 < s0 && !(in_tile(
                                lx0 as int,
                                ly0 as int,
                                ts as int,
                                lx2,
                                ly2,
                            ) && (ly2 < ly || (ly2 == ly && lx2 < lx))) ==> hbuf@[#[trigger] idx(
                                s0 as int,
                                lx2,
                                ly2,
                            )] == old(hbuf)@[idx(s0 as int, lx2, ly2)],
                    decreases lx0 + ts - lx,
                {
                    proof {
                        lemma_idx_bounds(s0 as int, lx as int, ly as int);
                    }
                    let hi = lx + ly * s0;
                    let px = gx0 + lx;
                    let py = gy0 + ly;
                    let ghost pre = hbuf@;
                    let mut hit: usize = 0;
                    if hbuf[hi] < ztop {
                        let xw = world_coord(v.sx, v.ox, n, px);
                        let yw = world_coord(v.sy, v.oy, n, py);
                        let mut zz = if ztop > gz0 {
                            ztop
                        } else {
                            gz0
                        };
                        while zz > gz0 && hit == 0
                            invariant
                                gz0 <= zz,
                                zz as int <= ztop as int || zz == gz0,
                                zz <= gz0 + ts,
                                gz0 + ts <= 0xffff_ffff,
                                ztop as int == imin(gz0 + ts, n as int),
                                n <= 0x7fff_ffff,
                                v.wf(),
                                px == gx0 + lx && py == gy0 + ly,
                                gx0 + lx0 <= px < gx0 + lx0 + ts,
                                gy0 + ly0 <= py < gy0 + ly0 + ts,
                                px0 == gx0 + lx0 && py0 == gy0 + ly0,
                                xw as int == world_of(v.sx as int, v.ox as int, n as int, px as int),
                                yw as int == world_of(v.sy as int, v.oy as int, n as int, py as int),
                                handle.wf(),
                                handle.expr_of() == e0,
                                trace_valid(e0, trace, bx),
                                hbuf@.len() == s0 * s0,
                                hbuf@ == pre,
                                forall|px2: int, py2: int, pz: int|
                                    gx0 + lx0 <= px2 < gx0 + lx0 + ts && gy0 + ly0 <= py2 < gy0
                                        + ly0 + ts && gz0 <= pz < gz0 + ts ==> #[trigger] voxel_val(
                                        e0,
                                        n as int,
                                        v,
                                        px2,
                                        py2,
                                        pz,
                                    ) == voxel_val(root@, n as int, v, px2, py2, pz),
                                forall|px2: int, py2: int, pz: int|
                                    #![trigger world_of(v.sx as int, v.ox as int, n as int, px2), world_of(v.sy as int, v.oy as int, n as int, py2), world_of(v.sz as int, v.oz as int, n as int, pz)]
                                    px0 <= px2 < px0 + ts && py0 <= py2 < py0 + ts && gz0 <= pz
                                        < gz0 + ts ==> bx.holds(
                                        world_of(v.sx as int, v.ox as int, n as int, px2),
                                        world_of(v.sy as int, v.oy as int, n as int, py2),
                                        world_of(v.sz as int, v.oz as int, n as int, pz),
                                    ),
                                hit == 0 ==> forall|pz: int|
                                    zz <= pz < ztop as int ==> #[trigger] voxel_val(
                                        root@,
                                        n as int,
                                        v,
                                        px as int,
                                        py as int,
                                        pz,
                                    ) > 0,
                                hit != 0 ==> hit as int == col_max(
                                    root@,
                                    n as int,
                                    v,
                                    px as int,
                                    py as int,
                                    gz0 as int,
                                    ztop as int,
                                ),
                                ts > 0,
                            decreases zz,
                        {
                            zz = zz - 1;
                            let sub = if trace.has_decision() {
                                handle.simplify(&trace, ws, sp, tp)
                            } else {
                                &mut *handle
                            };
                            proof {
                                if sub.expr_of() != e0 {
                                    lemma_simplify_eval(
                                        e0,
                                        trace,
                                        bx,
                                        world_of(v.sx as int, v.ox as int, n as int, px as int),
                                        world_of(v.sy as int, v.oy as int, n as int, py as int),
                                        world_of(v.sz as int, v.oz as int, n as int, zz as int),
                                    );
                                }
                            }
                            let zw = world_coord(v.sz, v.oz, n, zz);
                            let f = {
                                let t = sub.f_tape(tp);
                                t.eval_point(xw, yw, zw)
                            };
                            proof {
                                assert(f as int == voxel_val(
                                    e0,
                                    n as int,
                                    v,
                                    px as int,
                                    py as int,
                                    zz as int,
                                ));
                                assert(voxel_val(e0, n as int, v, px as int, py as int, zz as int)
                                    == voxel_val(root@, n as int, v, px as int, py as int, zz as int));
                            }
                            if f <= 0 {
                                hit = zz + 1;
                                proof {
                                    lemma_col_first_hit(
                                        root@,
                                        n as int,
                                        v,
                                        px as int,
                                        py as int,
                                        gz0 as int,
                                        ztop as int,
                                        zz as int,
                                    );
                                }
                            }
                        }
                        proof {
                            if hit == 0 {
                                if gz0 as int <= ztop as int {
                                    lemma_col_outside(
                                        root@,
                                        n as int,
                                        v,
                                        px as int,
                                        py as int,
                                        gz0 as int,
                                        ztop as int,
                                    );
                                } else {
                                    assert(col_max(
                                        root@,
                                        n as int,
                                        v,
                                        px as int,
                                        py as int,
                                        gz0 as int,
                                        ztop as int,
                                    ) == 0);
                                }
                            }
                        }
                        if hbuf[hi] < hit {
                            hbuf[hi] = hit;
                        }
                    } else {
                        proof {
                            if gz0 as int <= ztop as int {
                                lemma_col_bounds(
                                    root@,
                                    n as int,
                                    v,
                                    px as int,
                                    py as int,
                                    gz0 as int,
                                    ztop as int,
                                );
                            } else {
                                assert(col_max(
                                    root@,
                                    n as int,
                                    v,
                                    px as int,
                                    py as int,
                                    gz0 as int,
                                    ztop as int,
                                ) == 0);
                            }
                        }
                    }
                    proof {
                        assert(hi as int == idx(s0 as int, lx as int, ly as int));
                        assert(hbuf@[hi as int] as int == imax(
                            pre[hi as int] as int,
                            col_max(
                                root@,
                                n as int,
                                v,
                                px as int,
                                py as int,
                                gz0 as int,
                                ztop as int,
                            ),
                        ));
                        assert forall|lx2: int, ly2: int|
                            0 <= lx2 < s0 && 0 <= ly2 < s0 && in_tile(
                                lx0 as int,
                                ly0 as int,
                                ts as int,
                                lx2,
                                ly2,
                            ) && (ly2 < ly || (ly2 == ly && lx2 < lx + 1)) implies hbuf@[#[trigger] idx(
                            s0 as int,
                            lx2,
                            ly2,
                        )] as int == imax(
                            old(hbuf)@[idx(s0 as int, lx2, ly2)] as int,
                            col_max(root@, n as int, v, gx0 + lx2, gy0 + ly2, gz0 as int, ztop as int),
                        ) by {
                            lemma_idx_bounds(s0 as int, lx2, ly2);
                            lemma_idx_injective(s0 as int, lx2, ly2, lx as int, ly as int);
                        }
                        assert forall|lx2: int, ly2: int|
                            0 <= lx2 < s0 && 0 <= ly2 < s0 && !(in_tile(
                                lx0 as int,
                                ly0 as int,
                                ts as int,
                                lx2,
                                ly2,
                            ) && (ly2 < ly || (ly2 == ly && lx2 < lx + 1))) implies hbuf@[#[trigger] idx(
                            s0 as int,
                            lx2,
                            ly2,
                        )] == old(hbuf)@[idx(s0 as int, lx2, ly2)] by {
                            lemma_idx_bounds(s0 as int, lx2, ly2);
                            lemma_idx_injective(s0 as int, lx2, ly2, lx as int, ly as int);
                        }
                    }
                    lx = lx + 1;
                }
                ly = ly + 1;
            }
        }
    }
}

/// Whole root tiles cover the configured depth: `ceil(n/s0)` slabs of
/// edge `s0` reach at least `n`.
proof fn lemma_padded_covers(n: int, s0: int)
    requires
        0 < s0,
        0 <= n,
    ensures
        ((n + s0 - 1) / s0) * s0 >= n,
{
    if n == 0 {
        vstd::arithmetic::div_mod::lemma_div_pos_is_pos(s0 - 1, s0);
        assert(((s0 - 1) / s0) * s0 >= 0) by (nonlinear_arith)
            requires
                0 <= (s0 - 1) / s0,
                0 < s0,
        ;
    } else {
        let q = (n - 1) / s0;
        let r = (n - 1) % s0;
        vstd::arithmetic::div_mod::lemma_fundamental_div_mod(n - 1, s0);
        vstd::arithmetic::div_mod::lemma_mod_bound(n - 1, s0);
        assert(n + s0 - 1 == (q + 1) * s0 + r) by (nonlinear_arith)
            requires
                n - 1 == s0 * q + r,
        ;
        vstd::arithmetic::div_mod::lemma_fundamental_div_mod_converse(n + s0 - 1, s0, q + 1, r);
        assert((q + 1) * s0 >= n) by (nonlinear_arith)
            requires
                n - 1 == s0 * q + r,
                0 <= r < s0,
        ;
    }
}

/// Renders the full voxel column stack of one XY root tile into a fresh
/// tile-local heightmap, sweeping the root-depth slabs front to back
/// (top down) so nearer hits occlude the work behind them.  This is the
/// 3D worker's unit of independent work, usable from a front end's own
/// thread pool just like its 2D counterpart.
pub fn render_root_tile3(
    handle: &mut RenderHandle,
    tiles: &TileSizes,
    n: usize,
    v: View3,
    gx0: usize,
    gy0: usize,
    slabs: usize,
    ws: &mut Workspace,
    sp: &mut Vec<ShapeStorage>,
    tp: &mut Vec<TapeStorage>,
) -> (hbuf: Vec<usize>)
    requires
        0 < tiles@.len(),
        tiles@[0] <= 0x7fff_ffff,
        tiles@[0] * tiles@[0] <= usize::MAX,
        n <= 0x7fff_ffff,
        v.wf(),
        gx0 <= n,
        gy0 <= n,
        slabs * tiles@[0] <= 0xffff_ffff,
        old(handle).wf(),
    ensures
        final(handle).wf(),
        final(handle).expr_of() == old(handle).expr_of(),
        hbuf@.len() == tiles@[0] * tiles@[0],
        forall|lx: int, ly: int|
            0 <= lx < tiles@[0] && 0 <= ly < tiles@[0] ==> hbuf@[#[trigger] idx(
                tiles@[0] as int,
                lx,
                ly,
            )] as int == col_max(
                old(handle).expr_of(),
                n as int,
                v,
                gx0 + lx,
                gy0 + ly,
                0,
                imin(slabs as int * tiles@[0] as int, n as int),
            ),
{
    broadcast use lemma_idx_bounds;

    let ghost root_v = old(handle).expr_of();
    let s0 = tiles.get(0).unwrap();
    proof {
        use_type_invariant(tiles);
    }
    let mut hbuf: Vec<usize> = vec![0usize; s0 * s0];
    let ghost zs = imin(slabs as int * s0 as int, n as int);
    let mut tz: usize = slabs;
    while tz > 0
        invariant
            tiles@[0] == s0,
            0 < tiles@.len(),
            0 < s0 <= 0x7fff_ffff,
            s0 * s0 <= usize::MAX,
            n <= 0x7fff_ffff,
            v.wf(),
            gx0 <= n,
            gy0 <= n,
            0 <= tz <= slabs,
            slabs * s0 <= 0xffff_ffff,
            zs == imin(slabs as int * s0 as int, n as int),
            hbuf@.len() == s0 * s0,
            handle.wf(),
            handle.expr_of() == root_v,
            forall|lx: int, ly: int|
                0 <= lx < s0 && 0 <= ly < s0 ==> hbuf@[#[trigger] idx(s0 as int, lx, ly)] as int
                    == imax(
                    0,
                    col_max(root_v, n as int, v, gx0 + lx, gy0 + ly, tz as int * s0 as int, zs),
                ),
            root_v == old(handle).expr_of(),
        decreases tz,
    {
        proof {
            assert((tz as int - 1) * s0 as int + s0 as int == tz as int * s0 as int && 0 <= (
            tz as int - 1) * s0 as int && tz as int * s0 as int <= slabs as int
                * s0 as int) by (nonlinear_arith)
                requires
                    0 < tz <= slabs,
                    0 < s0,
            ;
        }
        tz = tz - 1;
        let gz0 = tz * s0;
        let ghost pre = hbuf@;
        render_tile3_rec(handle, tiles, 0, n, v, gx0, gy0, gz0, 0, 0, &mut hbuf, ws, sp, tp, Ghost(root_v));
        proof {
            assert forall|lx: int, ly: int|
                0 <= lx < s0 && 0 <= ly < s0 implies hbuf@[#[trigger] idx(s0 as int, lx, ly)] as int
                == imax(
                0,
                col_max(root_v, n as int, v, gx0 + lx, gy0 + ly, tz as int * s0 as int, zs),
            ) by {
                lemma_idx_bounds(s0 as int, lx, ly);
                lemma_col_split_clip(
                    root_v,
                    n as int,
                    v,
                    gx0 + lx,
                    gy0 + ly,
                    tz as int * s0 as int,
                    tz as int * s0 as int + s0 as int,
                    slabs as int * s0 as int,
                    n as int,
                );
            }
        }
    }
    proof {
        assert forall|lx: int, ly: int|
            0 <= lx < s0 && 0 <= ly < s0 implies hbuf@[#[trigger] idx(s0 as int, lx, ly)] as int
            == col_max(root_v, n as int, v, gx0 + lx, gy0 + ly, 0, zs) by {
            lemma_col_bounds(root_v, n as int, v, gx0 + lx, gy0 + ly, 0, zs);
        }
    }
    hbuf
}

/// Renders the heightmap of a shape over a cubic voxel volume.
///
/// Each output value is one plus the highest voxel index (over the
/// padded depth) whose sampled value is non-positive in that pixel's
/// column, or zero where the column misses the shape entirely.  The XY
/// root tiles are split round-robin over the configured work units,
/// each with its own root-handle clone and pools; the per-pixel result
/// depends on the shape, the volume size and the view alone, never on
/// the tile sizes or the work-unit count.
pub fn render_heightmap(shape: Shape, cfg: &VoxelRenderConfig) -> (img: Vec<usize>)
    requires
        cfg.wf(),
    ensures
        img@.len() == cfg.voxel_size * cfg.voxel_size,
        forall|px: int, py: int|
            0 <= px < cfg.voxel_size && 0 <= py < cfg.voxel_size ==> img@[#[trigger] idx(
                cfg.voxel_size as int,
                px,
                py,
            )] as int == col_max(
                shape@,
                cfg.voxel_size as int,
                cfg.view,
                px,
                py,
                0,
                cfg.voxel_size as int,
            ),
{
    broadcast use lemma_idx_bounds;

    let ghost root_e = shape@;
    let n = cfg.voxel_size;
    let v = cfg.view;
    proof {
        use_type_invariant(&cfg.tile_sizes);
    }
    let s0 = cfg.tile_sizes.get(0).unwrap();
    proof {
        assert(cfg.tile_sizes@[0] as int > 0);
        assert(n as int * n as int <= 0x4000_0000 && n as int + s0 as int <= 0x1_0000) by (
        nonlinear_arith)
            requires
                n <= 0x7fff,
                0 < s0 <= 0x7fff,
        ;
        crate::render2d::lemma_tw_bound(n as int, s0 as int);
    }
    let tw = (n + s0 - 1) / s0;
    proof {
        assert(tw as int * tw as int <= n as int * n as int && tw as int * s0 as int
            <= 0x4000_0000) by (nonlinear_arith)
            requires
                0 <= tw <= n,
                n <= 0x7fff,
                0 < s0 <= 0x7fff,
        ;
    }
    let total = tw * tw;
    let mut units = cfg.threads.units();
    if units > total {
        units = if total == 0 {
            1
        } else {
            total
        };
    }
    let handle0 = RenderHandle::new(shape);
    let mut img: Vec<usize> = vec![0usize; n * n];
    let ghost zs = n as int;
    let mut u: usize = 0;
    while u < units
        invariant
            cfg.wf(),
            n == cfg.voxel_size,
            v == cfg.view,
            0 < s0 <= 0x7fff,
            s0 as int == cfg.tile_sizes@[0],
            cfg.tile_sizes@.len() > 0,
            n <= 0x7fff,
            n as int * n as int <= 0x4000_0000,
            tw as int == (n as int + s0 as int - 1) / s0 as int,
            0 <= tw <= n,
            tw as int * s0 as int <= 0x4000_0000,
            total == tw * tw,
            total as int <= n as int * n as int,
            zs == n as int,
            1 <= units,
            units <= total || total == 0,
            0 <= u <= units,
            handle0.wf(),
            handle0.expr_of() == root_e,
            img@.len() == n * n,
            forall|px: int, py: int|
                0 <= px < n && 0 <= py < n && tile_of(s0 as int, tw as int, px, py) % (
                units as int) < (u as int) ==> img@[#[trigger] idx(n as int, px, py)] as int
                    == col_max(root_e, n as int, v, px, py, 0, zs),
        decreases units - u,
    {
        let mut h = handle0.clone();
        let mut ws = Workspace::new();
        let mut sp: Vec<ShapeStorage> = Vec::new();
        let mut tp: Vec<TapeStorage> = Vec::new();
        let mut t: usize = u;
        proof {
            vstd::arithmetic::div_mod::lemma_small_mod(u as nat, units as nat);
        }
        while t < total
            invariant
                cfg.wf(),
                n == cfg.voxel_size,
                v == cfg.view,
                0 < s0 <= 0x7fff,
                s0 as int == cfg.tile_sizes@[0],
                cfg.tile_sizes@.len() > 0,
                n <= 0x7fff,
                n as int * n as int <= 0x4000_0000,
                tw as int == (n as int + s0 as int - 1) / s0 as int,
                0 <= tw <= n,
                tw as int * s0 as int <= 0x4000_0000,
                total == tw * tw,
                total as int <= n as int * n as int,
                zs == n as int,
                1 <= units,
                units <= total || total == 0,
                0 <= u < units,
                (t as int) % (units as int) == u as int,
                u <= t,
                h.wf(),
                h.expr_of() == root_e,
                img@.len() == n * n,
                forall|px: int, py: int|
                    0 <= px < n && 0 <= py < n && (tile_of(s0 as int, tw as int, px, py) % (
                    units as int) < (u as int) || (tile_of(s0 as int, tw as int, px, py) % (
                    units as int) == u as int && u as int <= tile_of(s0 as int, tw as int, px, py)
                        && tile_of(s0 as int, tw as int, px, py) < t as int)) ==> img@[#[trigger] idx(
                        n as int,
                        px,
                        py,
                    )] as int == col_max(root_e, n as int, v, px, py, 0, zs),
            decreases total + units - t,
        {
            proof {
                assert(tw > 0) by (nonlinear_arith)
                    requires
                        total == tw * tw,
                        t < total,
                        0 <= tw,
                ;
                lemma_grid_coords(t as int, tw as int);
            }
            let tx = t % tw;
            let ty = t / tw;
            proof {
                lemma_origin_bound(n as int, s0 as int, tw as int, tx as int);
                lemma_origin_bound(n as int, s0 as int, tw as int, ty as int);
                assert(s0 as int * s0 as int <= 0x3fff_8001 && tx as int * s0 as int
                    <= 0x4000_0000 && ty as int * s0 as int <= 0x4000_0000) by (nonlinear_arith)
                    requires
                        0 < s0 <= 0x7fff,
                        0 <= tx <= 0x7fff,
                        0 <= ty <= 0x7fff,
                ;
            }
            let gx0 = tx * s0;
            let gy0 = ty * s0;
            let buf = render_root_tile3(
                &mut h,
                &cfg.tile_sizes,
                n,
                v,
                gx0,
                gy0,
                tw,
                &mut ws,
                &mut sp,
                &mut tp,
            );
            let ghost pre = img@;
            blit_tile(&mut img, n, s0, gx0, gy0, &buf);
            proof {
                assert forall|px: int, py: int|
                    0 <= px < n && 0 <= py < n && (tile_of(s0 as int, tw as int, px, py) % (
                    units as int) < (u as int) || (tile_of(s0 as int, tw as int, px, py) % (
                    units as int) == u as int && u as int <= tile_of(s0 as int, tw as int, px, py)
                        && tile_of(s0 as int, tw as int, px, py) < t as int
                        + units as int)) implies img@[#[trigger] idx(n as int, px, py)] as int
                    == col_max(root_e, n as int, v, px, py, 0, zs) by {
                    lemma_idx_bounds(n as int, px, py);
                    lemma_tile_cover(n as int, s0 as int, tw as int, px);
                    lemma_tile_cover(n as int, s0 as int, tw as int, py);
                    let tl = tile_of(s0 as int, tw as int, px, py);
                    lemma_idx_injective(
                        tw as int,
                        px / (s0 as int),
                        py / (s0 as int),
                        tx as int,
                        ty as int,
                    );
                    if tl == t as int {
                        assert(px / (s0 as int) == tx as int && py / (s0 as int) == ty as int);
                        assert(gx0 <= px < gx0 + s0 && gy0 <= py < gy0 + s0);
                        assert(img@[idx(n as int, px, py)] == buf@[idx(
                            s0 as int,
                            px - gx0,
                            py - gy0,
                        )]);
                        lemma_padded_covers(n as int, s0 as int);
                        assert(imin(tw as int * s0 as int, n as int) == n as int);
                        assert(buf@[idx(s0 as int, px - gx0, py - gy0)] as int == col_max(
                            root_e,
                            n as int,
                            v,
                            gx0 + (px - gx0),
                            gy0 + (py - gy0),
                            0,
                            zs,
                        ));
                    } else {
                        assert(!(gx0 <= px < gx0 + s0 && gy0 <= py < gy0 + s0)) by {
                            if gx0 <= px < gx0 + s0 && gy0 <= py < gy0 + s0 {
                                lemma_pixel_tile(px, tx as int, s0 as int);
                                lemma_pixel_tile(py, ty as int, s0 as int);
                            }
                        }
                        assert(img@[idx(n as int, px, py)] == pre[idx(n as int, px, py)]);
                        if tl % (units as int) == u as int && (t as int) < tl && tl < t as int
                            + units as int {
                            vstd::arithmetic::div_mod::lemma_mod_equivalence(
                                tl,
                                t as int,
                                units as int,
                            );
                            vstd::arithmetic::div_mod::lemma_small_mod(
                                (tl - t) as nat,
                                units as nat,
                            );
                            assert(false);
                        }
                    }
                }
                vstd::arithmetic::div_mod::lemma_mod_add_multiples_vanish(t as int, units as int);
            }
            t = t + units;
        }
        proof {
            assert forall|px: int, py: int|
                0 <= px < n && 0 <= py < n && tile_of(s0 as int, tw as int, px, py) % (
                units as int) < (u as int) + 1 implies img@[#[trigger] idx(
                n as int,
                px,
                py,
            )] as int == col_max(root_e, n as int, v, px, py, 0, zs) by {
                lemma_tile_cover(n as int, s0 as int, tw as int, px);
                lemma_tile_cover(n as int, s0 as int, tw as int, py);
                let tl = tile_of(s0 as int, tw as int, px, py);
                if tl % (units as int) == u as int && tl < u as int {
                    vstd::arithmetic::div_mod::lemma_small_mod(tl as nat, units as nat);
                }
                assert(0 <= tl < total as int) by (nonlinear_arith)
                    requires
                        0 <= py / (s0 as int) && py / (s0 as int) < tw as int,
                        0 <= px / (s0 as int) && px / (s0 as int) < tw as int,
                        tl == (py / (s0 as int)) * (tw as int) + px / (s0 as int),
                        total as int == tw as int * tw as int,
                ;
            }
        }
        u = u + 1;
    }
    proof {
        assert forall|px: int, py: int| 0 <= px < n && 0 <= py < n implies img@[#[trigger] idx(
            n as int,
            px,
            py,
        )] as int == col_max(root_e, n as int, v, px, py, 0, zs) by {
            lemma_tile_cover(n as int, s0 as int, tw as int, px);
            lemma_tile_cover(n as int, s0 as int, tw as int, py);
            let tl = tile_of(s0 as int, tw as int, px, py);
            vstd::arithmetic::div_mod::lemma_mod_bound(tl, units as int);
        }
    }
    img
}

/// One channel of the normal encoding: 128 shifted by the gradient
/// component scaled against the dominant component `m`, clamped to the
/// byte range.
pub open spec fn shade_channel(gv: int, m: int) -> u8 {
    if gv >= 0 {
        let t = 128 + (127 * gv) / m;
        if t > 255 {
            255u8
        } else {
            t as u8
        }
    } else {
        let t = 128 - (127 * (-gv)) / m;
        if t < 0 {
            0u8
        } else {
            t as u8
        }
    }
}

/// The integer normal encoding of a gradient: each channel is offset
/// from 128 in proportion to its component, scaled by the largest
/// component magnitude.
pub open spec fn shade_rgb(gx: int, gy: int, gz: int) -> Rgb {
    let m = imax(imax(iabs(gx), iabs(gy)), imax(iabs(gz), 1));
    Rgb { r: shade_channel(gx, m), g: shade_channel(gy, m), b: shade_channel(gz, m) }
}

/// The shaded value of a pixel: black where the column misses the
/// shape, else the normal encoding of the gradient at the surface
/// voxel's center.
pub open spec fn shaded_of(e: Expr, n: int, v: View3, px: int, py: int, zs: int) -> Rgb {
    let h = col_max(e, n, v, px, py, 0, zs);
    if h == 0 {
        Rgb { r: 0, g: 0, b: 0 }
    } else {
        let (gx, gy, gz) = grad(
            e,
            world_of(v.sx as int, v.ox as int, n, px),
            world_of(v.sy as int, v.oy as int, n, py),
            world_of(v.sz as int, v.oz as int, n, h - 1),
        );
        shade_rgb(gx, gy, gz)
    }
}

/// Computes [`shade_channel`] for machine-sized inputs.
fn shade_channel_exec(gv: i64, m: u128) -> (c: u8)
    ensures
        1 <= m ==> c == shade_channel(gv as int, m as int),
{
    if m == 0 {
        return 128;
    }
    if gv >= 0 {
        let t: u128 = 128 + (127 * (gv as u128)) / m;
        if t > 255 {
            255
        } else {
            t as u8
        }
    } else {
        let a: u128 = (-(gv as i128)) as u128;
        let d: u128 = (127 * a) / m;
        if d >= 128 {
            0
        } else {
            (128 - d) as u8
        }
    }
}

/// Computes [`shade_rgb`] for machine-sized inputs.
fn shade_rgb_exec(gx: i64, gy: i64, gz: i64) -> (c: Rgb)
    ensures
        c == shade_rgb(gx as int, gy as int, gz as int),
{
    let ax: u128 = if gx < 0 {
        (-(gx as i128)) as u128
    } else {
        gx as u128
    };
    let ay: u128 = if gy < 0 {
        (-(gy as i128)) as u128
    } else {
        gy as u128
    };
    let az: u128 = if gz < 0 {
        (-(gz as i128)) as u128
    } else {
        gz as u128
    };
    let mut m: u128 = 1;
    if ax > m {
        m = ax;
    }
    if ay > m {
        m = ay;
    }
    if az > m {
        m = az;
    }
    proof {
        assert(m as int == imax(imax(iabs(gx as int), iabs(gy as int)), imax(iabs(gz as int), 1)));
    }
    Rgb {
        r: shade_channel_exec(gx, m),
        g: shade_channel_exec(gy, m),
        b: shade_channel_exec(gz, m),
    }
}

/// Renders the shaded-normal view of a shape over a cubic voxel volume.
///
/// First the heightmap is rendered; then the surface points are bulk
/// gradient-evaluated through the gradient tape, and each hit pixel is
/// colored by the integer normal encoding, with misses black.
pub fn render_shaded(shape: Shape, cfg: &VoxelRenderConfig) -> (img: Vec<Rgb>)
    requires
        cfg.wf(),
    ensures
        img@.len() == cfg.voxel_size * cfg.voxel_size,
        forall|px: int, py: int|
            0 <= px < cfg.voxel_size && 0 <= py < cfg.voxel_size ==> img@[#[trigger] idx(
                cfg.voxel_size as int,
                px,
                py,
            )] == shaded_of(
                shape@,
                cfg.voxel_size as int,
                cfg.view,
                px,
                py,
                cfg.voxel_size as int,
            ),
{
    broadcast use lemma_idx_bounds;

    let ghost root_e = shape@;
    let n = cfg.voxel_size;
    let v = cfg.view;
    let ghost zs = n as int;
    let hm = render_heightmap(shape.clone(), cfg);
    proof {
        use_type_invariant(&cfg.tile_sizes);
        assert(n as int * n as int <= 0x4000_0000) by (nonlinear_arith)
            requires
                n <= 0x7fff,
        ;
    }
    let mut handle = RenderHandle::new(shape);
    let mut tp: Vec<TapeStorage> = Vec::new();
    let mut xs: Vec<i64> = vec![0i64; n * n];
    let mut ys: Vec<i64> = vec![0i64; n * n];
    let mut zv: Vec<i64> = vec![0i64; n * n];
    let mut py: usize = 0;
    while py < n
        invariant
            n <= 0x7fff,
            v == cfg.view,
            v.wf(),
            zs == n as int,
            0 <= zs <= 0x4000_0000,
            hm@.len() == n * n,
            forall|px2: int, py2: int|
                0 <= px2 < n && 0 <= py2 < n ==> hm@[#[trigger] idx(n as int, px2, py2)] as int
                    == col_max(root_e, n as int, v, px2, py2, 0, zs),
            n as int * n as int <= 0x4000_0000,
            0 <= py <= n,
            xs@.len() == n * n && ys@.len() == n * n && zv@.len() == n * n,
            forall|px2: int, py2: int|
                0 <= px2 < n && 0 <= py2 < py ==> xs@[#[trigger] idx(n as int, px2, py2)] as int
                    == world_of(v.sx as int, v.ox as int, n as int, px2) && ys@[idx(
                    n as int,
                    px2,
                    py2,
                )] as int == world_of(v.sy as int, v.oy as int, n as int, py2) && zv@[idx(
                    n as int,
                    px2,
                    py2,
                )] as int == world_of(
                    v.sz as int,
                    v.oz as int,
                    n as int,
                    if hm@[idx(n as int, px2, py2)] == 0 {
                        0int
                    } else {
                        hm@[idx(n as int, px2, py2)] - 1
                    },
                ),
        decreases n - py,
    {
        let mut px: usize = 0;
        while px < n
            invariant
                n <= 0x7fff,
                v == cfg.view,
                v.wf(),
                zs == n as int,
                0 <= zs <= 0x4000_0000,
                hm@.len() == n * n,
                forall|px2: int, py2: int|
                    0 <= px2 < n && 0 <= py2 < n ==> hm@[#[trigger] idx(n as int, px2, py2)] as int
                        == col_max(root_e, n as int, v, px2, py2, 0, zs),
                n as int * n as int <= 0x4000_0000,
                0 <= py < n,
                0 <= px <= n,
                xs@.len() == n * n && ys@.len() == n * n && zv@.len() == n * n,
                forall|px2: int, py2: int|
                    0 <= px2 < n && 0 <= py2 < n && (py2 < py || (py2 == py && px2 < px))
                        ==> xs@[#[trigger] idx(n as int, px2, py2)] as int == world_of(
                        v.sx as int,
                        v.ox as int,
                        n as int,
                        px2,
                    ) && ys@[idx(n as int, px2, py2)] as int == world_of(
                        v.sy as int,
                        v.oy as int,
                        n as int,
                        py2,
                    ) && zv@[idx(n as int, px2, py2)] as int == world_of(
                        v.sz as int,
                        v.oz as int,
                        n as int,
                        if hm@[idx(n as int, px2, py2)] == 0 {
                            0int
                        } else {
                            hm@[idx(n as int, px2, py2)] - 1
                        },
                    ),
            decreases n - px,
        {
            proof {
                lemma_idx_bounds(n as int, px as int, py as int);
                lemma_col_bounds(root_e, n as int, v, px as int, py as int, 0, zs);
            }
            let i = px + py * n;
            let h = hm[i];
            let zsurf: usize = if h == 0 {
                0
            } else {
                h - 1
            };
            xs[i] = world_coord(v.sx, v.ox, n, px);
            ys[i] = world_coord(v.sy, v.oy, n, py);
            zv[i] = world_coord(v.sz, v.oz, n, zsurf);
            proof {
                assert(i as int == idx(n as int, px as int, py as int));
                assert forall|px2: int, py2: int|
                    0 <= px2 < n && 0 <= py2 < n && (py2 < py || (py2 == py && px2 < px
                        + 1)) implies xs@[#[trigger] idx(n as int, px2, py2)] as int == world_of(
                    v.sx as int,
                    v.ox as int,
                    n as int,
                    px2,
                ) && ys@[idx(n as int, px2, py2)] as int == world_of(
                    v.sy as int,
                    v.oy as int,
                    n as int,
                    py2,
                ) && zv@[idx(n as int, px2, py2)] as int == world_of(
                    v.sz as int,
                    v.oz as int,
                    n as int,
                    if hm@[idx(n as int, px2, py2)] == 0 {
                        0int
                    } else {
                        hm@[idx(n as int, px2, py2)] - 1
                    },
                ) by {
                    lemma_idx_bounds(n as int, px2, py2);
                    lemma_idx_injective(n as int, px2, py2, px as int, py as int);
                }
            }
            px = px + 1;
        }
        py = py + 1;
    }
    let gs = {
        let t = handle.g_tape(&mut tp);
        t.eval_grad_slice(&xs, &ys, &zv)
    };
    proof {
        assert forall|px2: int, py2: int|
            0 <= px2 < n && 0 <= py2 < n implies (gs@[#[trigger] idx(n as int, px2, py2)].1 as int,
        gs@[idx(n as int, px2, py2)].2 as int, gs@[idx(n as int, px2, py2)].3 as int) == grad(
            root_e,
            world_of(v.sx as int, v.ox as int, n as int, px2),
            world_of(v.sy as int, v.oy as int, n as int, py2),
            world_of(
                v.sz as int,
                v.oz as int,
                n as int,
                if hm@[idx(n as int, px2, py2)] == 0 {
                    0int
                } else {
                    hm@[idx(n as int, px2, py2)] - 1
                },
            ),
        ) by {
            lemma_idx_bounds(n as int, px2, py2);
            let i = idx(n as int, px2, py2);
            assert(gs@[i].0 as int == eval(root_e, xs@[i] as int, ys@[i] as int, zv@[i] as int));
        }
    }
    let mut img: Vec<Rgb> = vec![(Rgb { r: 0, g: 0, b: 0 }); n * n];
    let mut py2e: usize = 0;
    while py2e < n
        invariant
            n <= 0x7fff,
            v == cfg.view,
            zs == n as int,
            hm@.len() == n * n,
            forall|px2: int, py2: int|
                0 <= px2 < n && 0 <= py2 < n ==> hm@[#[trigger] idx(n as int, px2, py2)] as int
                    == col_max(root_e, n as int, v, px2, py2, 0, zs),
            gs@.len() == n * n,
            forall|px2: int, py2: int|
                0 <= px2 < n && 0 <= py2 < n ==> (gs@[#[trigger] idx(n as int, px2, py2)].1 as int,
                gs@[idx(n as int, px2, py2)].2 as int, gs@[idx(n as int, px2, py2)].3 as int)
                    == grad(
                    root_e,
                    world_of(v.sx as int, v.ox as int, n as int, px2),
                    world_of(v.sy as int, v.oy as int, n as int, py2),
                    world_of(
                        v.sz as int,
                        v.oz as int,
                        n as int,
                        if hm@[idx(n as int, px2, py2)] == 0 {
                            0int
                        } else {
                            hm@[idx(n as int, px2, py2)] - 1
                        },
                    ),
                ),
            n as int * n as int <= 0x4000_0000,
            0 <= py2e <= n,
            img@.len() == n * n,
            forall|px2: int, py2: int|
                0 <= px2 < n && 0 <= py2 < py2e ==> img@[#[trigger] idx(n as int, px2, py2)]
                    == shaded_of(root_e, n as int, v, px2, py2, zs),
        decreases n - py2e,
    {
        let mut px2e: usize = 0;
        while px2e < n
            invariant
                n <= 0x7fff,
                v == cfg.view,
                zs == n as int,
                hm@.len() == n * n,
                forall|px2: int, py2: int|
                    0 <= px2 < n && 0 <= py2 < n ==> hm@[#[trigger] idx(n as int, px2, py2)] as int
                        == col_max(root_e, n as int, v, px2, py2, 0, zs),
                gs@.len() == n * n,
                forall|px2: int, py2: int|
                    0 <= px2 < n && 0 <= py2 < n ==> (gs@[#[trigger] idx(
                        n as int,
                        px2,
                        py2,
                    )].1 as int, gs@[idx(n as int, px2, py2)].2 as int, gs@[idx(
                        n as int,
                        px2,
                        py2,
                    )].3 as int) == grad(
                        root_e,
                        world_of(v.sx as int, v.ox as int, n as int, px2),
                        world_of(v.sy as int, v.oy as int, n as int, py2),
                        world_of(
                            v.sz as int,
                            v.oz as int,
                            n as int,
                            if hm@[idx(n as int, px2, py2)] == 0 {
                                0int
                            } else {
                                hm@[idx(n as int, px2, py2)] - 1
                            },
                        ),
                    ),
                n as int * n as int <= 0x4000_0000,
                0 <= py2e < n,
                0 <= px2e <= n,
                img@.len() == n * n,
                forall|px2: int, py2: int|
                    0 <= px2 < n && 0 <= py2 < n && (py2 < py2e || (py2 == py2e && px2 < px2e))
                        ==> img@[#[trigger] idx(n as int, px2, py2)] == shaded_of(
                        root_e,
                        n as int,
                        v,
                        px2,
                        py2,
                        zs,
                    ),
            decreases n - px2e,
        {
            proof {
                lemma_idx_bounds(n as int, px2e as int, py2e as int);
            }
            let i = px2e + py2e * n;
            let h = hm[i];
            let c = if h == 0 {
                Rgb { r: 0, g: 0, b: 0 }
            } else {
                let g = gs[i];
                shade_rgb_exec(g.1, g.2, g.3)
            };
            img[i] = c;
            proof {
                assert(i as int == idx(n as int, px2e as int, py2e as int));
                assert forall|px2: int, py2: int|
                    0 <= px2 < n && 0 <= py2 < n && (py2 < py2e || (py2 == py2e && px2 < px2e
                        + 1)) implies img@[#[trigger] idx(n as int, px2, py2)] == shaded_of(
                    root_e,
                    n as int,
                    v,
                    px2,
                    py2,
                    zs,
                ) by {
                    lemma_idx_bounds(n as int, px2, py2);
                    lemma_idx_injective(n as int, px2, py2, px2e as int, py2e as int);
                    if px2 == px2e as int && py2 == py2e as int {
                        lemma_col_bounds(root_e, n as int, v, px2, py2, 0, zs);
                    }
                }
            }
            px2e = px2e + 1;
        }
        py2e = py2e + 1;
    }
    img
}

} // verus!
