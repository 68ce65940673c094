use vstd::prelude::*;
use crate::config::{ImageRenderConfig, View2, world_of, world_coord, lemma_world_mono};
use crate::handle::{RenderHandle, Shape, ShapeStorage, TapeStorage, Workspace};
use crate::interval::Interval;
use crate::shape::{Aabb, Expr, eval, lemma_simplify_eval, spec_interval, spec_trace, trace_valid};
use crate::tile::TileSizes;

verus! {

/// The shape's value at the center of pixel `(px, py)` of an `n`-wide
/// square image under view `v`; 2D rendering fixes `z` at zero.
pub open spec fn pixel_val(e: Expr, n: int, v: View2, px: int, py: int) -> int {
    eval(
        e,
        world_of(v.sx as int, v.ox as int, n, px),
        world_of(v.sy as int, v.oy as int, n, py),
        0,
    )
}

/// One rendered pixel before a mode adapter maps it to an output value.
#[derive(Debug, Clone, Copy, PartialEq, Eq, Structural)]
pub enum Pix {
    /// The pixel was decided by an interval test at the given tile
    /// level: the whole tile was proven inside (or outside) the shape.
    Tile { level: usize, inside: bool },
    /// The pixel was evaluated individually at the deepest tile level;
    /// `f` is the shape's value at the pixel center.
    Sample { f: i64, level: usize },
}

/// A rendered pixel is faithful to the shape: a tile fill may only claim
/// what holds at this pixel's center, and a sample carries the exact
/// value there.
pub open spec fn pix_ok(p: Pix, e: Expr, n: int, v: View2, px: int, py: int) -> bool {
    match p {
        Pix::Tile { level, inside } => inside == (pixel_val(e, n, v, px, py) <= 0),
        Pix::Sample { f, level } => f as int == pixel_val(e, n, v, px, py),
    }
}

/// The raw pixel an unpruned render produces: the exact sample at the
/// pixel center, resolved at the deepest tile level.
pub open spec fn sample_pix(e: Expr, n: int, v: View2, px: int, py: int, deepest: int) -> Pix {
    Pix::Sample { f: pixel_val(e, n, v, px, py) as i64, level: deepest as usize }
}

/// The world-space box of a square tile of edge `ts` whose pixel origin
/// is `(px0, py0)`: it spans the outermost pixel centers on each axis,
/// with `z` fixed at zero.
pub open spec fn tile_box(n: int, v: View2, px0: int, py0: int, ts: int) -> Aabb {
    Aabb {
        x: Interval {
            lo: world_of(v.sx as int, v.ox as int, n, px0) as i64,
            hi: world_of(v.sx as int, v.ox as int, n, px0 + ts - 1) as i64,
        },
        y: Interval {
            lo: world_of(v.sy as int, v.oy as int, n, py0) as i64,
            hi: world_of(v.sy as int, v.oy as int, n, py0 + ts - 1) as i64,
        },
        z: Interval { lo: 0, hi: 0 },
    }
}

/// The box of the root tile containing pixel `(px, py)`.
pub open spec fn root_box(n: int, v: View2, s0: int, px: int, py: int) -> Aabb {
    tile_box(n, v, (px / s0) * s0, (py / s0) * s0, s0)
}

/// When interval evaluation decides a pixel's whole root tile, the
/// pixel is filled at the root level with that decision: this is what
/// makes the debug view's root-level colors a consequence of the
/// contract, not just of the implementation.
pub open spec fn root_fill(e: Expr, n: int, v: View2, s0: int, px: int, py: int, p: Pix) -> bool {
    &&& (spec_interval(e, root_box(n, v, s0, px, py)).hi <= 0 ==> p == (Pix::Tile {
        level: 0,
        inside: true,
    }))
    &&& (spec_interval(e, root_box(n, v, s0, px, py)).lo >= 1 ==> p == (Pix::Tile {
        level: 0,
        inside: false,
    }))
}

/// The expression an ambiguous tile descends with: the committed
/// simplification when the trace decided something and the result is
/// strictly smaller, else the tile's own expression.
pub open spec fn descend_expr(e: Expr, b: Aabb) -> Expr {
    if crate::shape::spec_has_decision(spec_trace(e, b)) && crate::handle::shrinks(
        e,
        spec_trace(e, b),
    ) {
        crate::shape::spec_simplify(e, spec_trace(e, b))
    } else {
        e
    }
}

/// The raw pixel a pruned render produces: the deterministic outcome of
/// the tile recursion, as a function of the expression, the tile list,
/// the view and the pixel alone.  A decided tile fills at its level; an
/// ambiguous one simplifies and descends into the sub-tile containing
/// the pixel; the deepest level samples the pixel center.
pub open spec fn tile_pix(
    e: Expr,
    tiles: Seq<usize>,
    level: int,
    n: int,
    v: View2,
    px0: int,
    py0: int,
    px: int,
    py: int,
) -> Pix
    decreases tiles.len() - level,
{
    let ts = tiles[level] as int;
    let bx = tile_box(n, v, px0, py0, ts);
    let iv = spec_interval(e, bx);
    if iv.hi <= 0 {
        Pix::Tile { level: level as usize, inside: true }
    } else if iv.lo >= 1 {
        Pix::Tile { level: level as usize, inside: false }
    } else {
        let e2 = descend_expr(e, bx);
        if level + 1 < tiles.len() {
            let nts = tiles[level + 1] as int;
            tile_pix(
                e2,
                tiles,
                level + 1,
                n,
                v,
                px0 + ((px - px0) / nts) * nts,
                py0 + ((py - py0) / nts) * nts,
                px,
                py,
            )
        } else {
            Pix::Sample {
                f: eval(
                    e2,
                    world_of(v.sx as int, v.ox as int, n, px),
                    world_of(v.sy as int, v.oy as int, n, py),
                    0,
                ) as i64,
                level: level as usize,
            }
        }
    }
}

/// The buffer offset of local pixel `(lx, ly)` in a root tile of edge
/// `s0`.
pub open spec fn idx(s0: int, lx: int, ly: int) -> int {
    lx + ly * s0
}

/// Whether local pixel `(lx, ly)` lies in the tile of edge `ts` at local
/// origin `(lx0, ly0)`.
pub open spec fn in_tile(lx0: int, ly0: int, ts: int, lx: int, ly: int) -> bool {
    lx0 <= lx < lx0 + ts && ly0 <= ly < ly0 + ts
}

/// Buffer offsets of in-range local pixels are in range.
pub broadcast proof fn lemma_idx_bounds(s0: int, lx: int, ly: int)
    requires
        0 <= lx < s0,
        0 <= ly < s0,
    ensures
        lx + ly * s0 == #[trigger] idx(s0, lx, ly),
        0 <= idx(s0, lx, ly) < s0 * s0,
        ly * s0 <= idx(s0, lx, ly),
        0 <= ly * s0,
{
    assert(0 <= ly * s0 && lx + ly * s0 < s0 * s0) by (nonlinear_arith)
        requires
            0 <= lx < s0,
            0 <= ly < s0,
    ;
}

/// Distinct in-range local pixels have distinct buffer offsets.
pub broadcast proof fn lemma_idx_injective(s0: int, lx: int, ly: int, lx2: int, ly2: int)
    requires
        0 <= lx < s0,
        0 <= ly < s0,
        0 <= lx2 < s0,
        0 <= ly2 < s0,
    ensures
        #[trigger] idx(s0, lx, ly) == #[trigger] idx(s0, lx2, ly2) ==> lx == lx2 && ly == ly2,
{
    if idx(s0, lx, ly) == idx(s0, lx2, ly2) {
        assert(lx == lx2 && ly == ly2) by (nonlinear_arith)
            requires
                0 <= lx < s0,
                0 <= ly < s0,
                0 <= lx2 < s0,
                0 <= ly2 < s0,
                lx + ly * s0 == lx2 + ly2 * s0,
        ;
    }
}

/// Writes one value over a whole tile of the root-tile buffer, leaving
/// every pixel outside the tile unchanged.
fn fill_tile(buf: &mut Vec<Pix>, s0: usize, lx0: usize, ly0: usize, ts: usize, p: Pix)
    requires
        s0 * s0 <= usize::MAX,
        old(buf)@.len() == s0 * s0,
        lx0 + ts <= s0,
        ly0 + ts <= s0,
    ensures
        final(buf)@.len() == old(buf)@.len(),
        forall|lx: int, ly: int|
            0 <= lx < s0 && 0 <= ly < s0 && in_tile(lx0 as int, ly0 as int, ts as int, lx, ly)
                ==> final(buf)@[#[trigger] idx(s0 as int, lx, ly)] == p,
        forall|lx: int, ly: int|
            0 <= lx < s0 && 0 <= ly < s0 && !in_tile(lx0 as int, ly0 as int, ts as int, lx, ly)
                ==> final(buf)@[#[trigger] idx(s0 as int, lx, ly)] == old(buf)@[idx(
                s0 as int,
                lx,
                ly,
            )],
{
    broadcast use lemma_idx_bounds, lemma_idx_injective;

    let mut ly: usize = ly0;
    while ly < ly0 + ts
        invariant
            s0 * s0 <= usize::MAX,
            buf@.len() == s0 * s0,
            ly0 <= ly <= ly0 + ts,
            lx0 + ts <= s0,
            ly0 + ts <= s0,
            forall|lx2: int, ly2: int|
                0 <= lx2 < s0 && 0 <= ly2 < s0 && in_tile(
                    lx0 as int,
                    ly0 as int,
                    ts as int,
                    lx2,
                    ly2,
                ) && ly2 < ly ==> buf@[#[trigger] idx(s0 as int, lx2, ly2)] == p,
            forall|lx2: int, ly2: int|
                0 <= lx2 < s0 && 0 <= ly2 < s0 && !(in_tile(
                    lx0 as int,
                    ly0 as int,
                    ts as int,
                    lx2,
                    ly2,
                ) && ly2 < ly) ==> buf@[#[trigger] idx(s0 as int, lx2, ly2)] == old(buf)@[idx(
                    s0 as int,
                    lx2,
                    ly2,
                )],
        decreases ly0 + ts - ly,
    {
        let mut lx: usize = lx0;
        while lx < lx0 + ts
            invariant
                s0 * s0 <= usize::MAX,
                buf@.len() == s0 * s0,
                lx0 <= lx <= lx0 + ts,
                ly0 <= ly < ly0 + ts,
                lx0 + ts <= s0,
                ly0 + ts <= s0,
                forall|lx2: int, ly2: int|
                    0 <= lx2 < s0 && 0 <= ly2 < s0 && in_tile(
                        lx0 as int,
                        ly0 as int,
                        ts as int,
                        lx2,
                        ly2,
                    ) && (ly2 < ly || (ly2 == ly && lx2 < lx)) ==> buf@[#[trigger] idx(
                        s0 as int,
                        lx2,
                        ly2,
                    )] == p,
                forall|lx2: int, ly2: int|
                    0 <= lx2 < s0 && 0 <= ly2 < s0 && !(in_tile(
                        lx0 as int,
                        ly0 as int,
                        ts as int,
                        lx2,
                        ly2,
                    ) && (ly2 < ly || (ly2 == ly && lx2 < lx))) ==> buf@[#[trigger] idx(
                        s0 as int,
                        lx2,
                        ly2,
                    )] == old(buf)@[idx(s0 as int, lx2, ly2)],
            decreases lx0 + ts - lx,
        {
            proof {
                lemma_idx_bounds(s0 as int, lx as int, ly as int);
            }
            let i = lx + ly * s0;
            buf[i] = p;
            proof {
                assert(i as int == idx(s0 as int, lx as int, ly as int));
                assert forall|lx2: int, ly2: int|
                    0 <= lx2 < s0 && 0 <= ly2 < s0 && in_tile(
                        lx0 as int,
                        ly0 as int,
                        ts as int,
                        lx2,
                        ly2,
                    ) && (ly2 < ly || (ly2 == ly && lx2 < lx + 1)) implies buf@[#[trigger] idx(
                    s0 as int,
                    lx2,
                    ly2,
                )] == p by {
                    lemma_idx_bounds(s0 as int, lx2, ly2);
                    lemma_idx_injective(s0 as int, lx2, ly2, lx as int, ly as int);
                }
                assert forall|lx2: int, ly2: int|
                    0 <= lx2 < s0 && 0 <= ly2 < s0 && !(in_tile(
                        lx0 as int,
                        ly0 as int,
                        ts as int,
                        lx2,
                        ly2,
                    ) && (ly2 < ly || (ly2 == ly && lx2 < lx + 1))) implies buf@[#[trigger] idx(
                    s0 as int,
                    lx2,
                    ly2,
                )] == old(buf)@[idx(s0 as int, lx2, ly2)] by {
                    lemma_idx_bounds(s0 as int, lx2, ly2);
                    lemma_idx_injective(s0 as int, lx2, ly2, lx as int, ly as int);
                }
            }
            lx = lx + 1;
        }
        ly = ly + 1;
    }
}


/// Writes one row of per-pixel samples into the root-tile buffer.
fn write_sample_row(
    buf: &mut Vec<Pix>,
    s0: usize,
    lx0: usize,
    ly: usize,
    ts: usize,
    fs: &Vec<i64>,
    level: usize,
)
    requires
        s0 * s0 <= usize::MAX,
        old(buf)@.len() == s0 * s0,
        lx0 + ts <= s0,
        ly < s0,
        fs@.len() == ts,
    ensures
        final(buf)@.len() == old(buf)@.len(),
        forall|lx: int|
            lx0 <= lx < lx0 + ts ==> final(buf)@[#[trigger] idx(s0 as int, lx, ly as int)]
                == (Pix::Sample { f: fs@[lx - lx0], level }),
        forall|lx: int, ly2: int|
            0 <= lx < s0 && 0 <= ly2 < s0 && !(lx0 <= lx < lx0 + ts && ly2 == ly)
                ==> final(buf)@[#[trigger] idx(s0 as int, lx, ly2)] == old(buf)@[idx(
                s0 as int,
                lx,
                ly2,
            )],
{
    broadcast use lemma_idx_bounds, lemma_idx_injective;

    let mut c: usize = 0;
    while c < ts
        invariant
            s0 * s0 <= usize::MAX,
            buf@.len() == s0 * s0,
            0 <= c <= ts,
            lx0 + ts <= s0,
            ly < s0,
            fs@.len() == ts,
            forall|lx: int|
                lx0 <= lx < lx0 + c ==> buf@[#[trigger] idx(s0 as int, lx, ly as int)]
                    == (Pix::Sample { f: fs@[lx - lx0], level }),
            forall|lx: int, ly2: int|
                0 <= lx < s0 && 0 <= ly2 < s0 && !(lx0 <= lx < lx0 + c && ly2 == ly) ==> buf@[
                    #[trigger] idx(s0 as int, lx, ly2)] == old(buf)@[idx(s0 as int, lx, ly2)],
        decreases ts - c,
    {
        proof {
            lemma_idx_bounds(s0 as int, (lx0 + c) as int, ly as int);
        }
        let i = (lx0 + c) + ly * s0;
        buf[i] = Pix::Sample { f: fs[c], level };
        proof {
            assert(i as int == idx(s0 as int, (lx0 + c) as int, ly as int));
            assert forall|lx: int|
                lx0 <= lx < lx0 + c + 1 implies buf@[#[trigger] idx(s0 as int, lx, ly as int)]
                == (Pix::Sample { f: fs@[lx - lx0], level }) by {
                lemma_idx_bounds(s0 as int, lx, ly as int);
                lemma_idx_injective(s0 as int, lx, ly as int, (lx0 + c) as int, ly as int);
            }
            assert forall|lx: int, ly2: int|
                0 <= lx < s0 && 0 <= ly2 < s0 && !(lx0 <= lx < lx0 + c + 1 && ly2
                    == ly) implies buf@[#[trigger] idx(s0 as int, lx, ly2)] == old(buf)@[idx(
                s0 as int,
                lx,
                ly2,
            )] by {
                lemma_idx_bounds(s0 as int, lx, ly2);
                lemma_idx_injective(s0 as int, lx, ly2, (lx0 + c) as int, ly as int);
            }
        }
        c = c + 1;
    }
}

/// Renders one tile at `level`, with its origin `(lx0, ly0)` local to the
/// root tile whose global pixel origin is `(gx0, gy0)`.
///
/// An interval test may settle the whole tile (when `prune` is set); an
/// ambiguous tile is simplified under the evaluation trace and descends
/// into its sub-tiles, or, at the deepest level, bulk-evaluates its
/// pixels row by row.  Every pixel of the tile ends up faithful to the
/// root shape; every pixel outside the tile is untouched.
#[verifier::rlimit(60)]
fn render_tile_rec(
    handle: &mut RenderHandle,
    tiles: &TileSizes,
    level: usize,
    n: usize,
    v: View2,
    gx0: usize,
    gy0: usize,
    lx0: usize,
    ly0: usize,
    prune: bool,
    buf: &mut Vec<Pix>,
    ws: &mut Workspace,
    sp: &mut Vec<ShapeStorage>,
    tp: &mut Vec<TapeStorage>,
    root: Ghost<Expr>,
)
    requires
        level < tiles@.len(),
        tiles@[0] <= 0x7fff_ffff,
        tiles@[0] * tiles@[0] <= usize::MAX,
        n <= 0x7fff_ffff,
        v.wf(),
        gx0 <= n,
        gy0 <= n,
        lx0 + tiles@[level as int] <= tiles@[0],
        ly0 + tiles@[level as int] <= tiles@[0],
        old(buf)@.len() == tiles@[0] * tiles@[0],
        old(handle).wf(),
        forall|px: int, py: int|
            gx0 + lx0 <= px < gx0 + lx0 + tiles@[level as int] && gy0 + ly0 <= py < gy0 + ly0
                + tiles@[level as int] ==> #[trigger] pixel_val(
                old(handle).expr_of(),
                n as int,
                v,
                px,
                py,
            ) == pixel_val(root@, n as int, v, px, py),
    ensures
        final(handle).wf(),
        final(handle).expr_of() == old(handle).expr_of(),
        final(buf)@.len() == old(buf)@.len(),
        forall|lx: int, ly: int|
            0 <= lx < tiles@[0] && 0 <= ly < tiles@[0] && in_tile(
                lx0 as int,
                ly0 as int,
                tiles@[level as int] as int,
                lx,
                ly,
            ) ==> pix_ok(
                final(buf)@[#[trigger] idx(tiles@[0] as int, lx, ly)],
                root@,
                n as int,
                v,
                gx0 + lx,
                gy0 + ly,
            ),
        forall|lx: int, ly: int|
            0 <= lx < tiles@[0] && 0 <= ly < tiles@[0] && !in_tile(
                lx0 as int,
                ly0 as int,
                tiles@[level as int] as int,
                lx,
                ly,
            ) ==> final(buf)@[#[trigger] idx(tiles@[0] as int, lx, ly)] == old(buf)@[idx(
                tiles@[0] as int,
                lx,
                ly,
            )],
        !prune ==> (forall|lx: int, ly: int|
            0 <= lx < tiles@[0] && 0 <= ly < tiles@[0] && in_tile(
                lx0 as int,
                ly0 as int,
                tiles@[level as int] as int,
                lx,
                ly,
            ) ==> final(buf)@[#[trigger] idx(tiles@[0] as int, lx, ly)] == sample_pix(
                root@,
                n as int,
                v,
                gx0 + lx,
                gy0 + ly,
                tiles@.len() - 1,
            )),
        prune && spec_interval(
            old(handle).expr_of(),
            tile_box(n as int, v, gx0 + lx0, gy0 + ly0, tiles@[level as int] as int),
        ).hi <= 0 ==> (forall|lx: int, ly: int|
            0 <= lx < tiles@[0] && 0 <= ly < tiles@[0] && in_tile(
                lx0 as int,
                ly0 as int,
                tiles@[level as int] as int,
                lx,
                ly,
            ) ==> final(buf)@[#[trigger] idx(tiles@[0] as int, lx, ly)] == (Pix::Tile {
                level,
                inside: true,
            })),
        prune && spec_interval(
            old(handle).expr_of(),
            tile_box(n as int, v, gx0 + lx0, gy0 + ly0, tiles@[level as int] as int),
        ).lo >= 1 ==> (forall|lx: int, ly: int|
            0 <= lx < tiles@[0] && 0 <= ly < tiles@[0] && in_tile(
                lx0 as int,
                ly0 as int,
                tiles@[level as int] as int,
                lx,
                ly,
            ) ==> final(buf)@[#[trigger] idx(tiles@[0] as int, lx, ly)] == (Pix::Tile {
                level,
                inside: false,
            })),
        prune ==> (forall|lx: int, ly: int|
            0 <= lx < tiles@[0] && 0 <= ly < tiles@[0] && in_tile(
                lx0 as int,
                ly0 as int,
                tiles@[level as int] as int,
                lx,
                ly,
            ) ==> final(buf)@[#[trigger] idx(tiles@[0] as int, lx, ly)] == tile_pix(
                old(handle).expr_of(),
                tiles@,
                level as int,
                n as int,
                v,
                gx0 + lx0,
                gy0 + ly0,
                gx0 + lx,
                gy0 + ly,
            )),
    decreases tiles@.len() - level,
{
    broadcast use lemma_idx_bounds, lemma_idx_injective;

    let nlev = tiles.len();
    let s0 = tiles.get(0).unwrap();
    let ts = tiles.get(level).unwrap();
    proof {
        use_type_invariant(tiles);
        assert(ts as int == tiles@[level as int] && ts > 0);
    }
    let px0 = gx0 + lx0;
    let py0 = gy0 + ly0;
    let xlo = world_coord(v.sx, v.ox, n, px0);
    let xhi = world_coord(v.sx, v.ox, n, px0 + ts - 1);
    let ylo = world_coord(v.sy, v.oy, n, py0);
    let yhi = world_coord(v.sy, v.oy, n, py0 + ts - 1);
    proof {
        lemma_world_mono(v.sx as int, v.ox as int, n as int, px0 as int, px0 + ts - 1);
        lemma_world_mono(v.sy as int, v.oy as int, n as int, py0 as int, py0 + ts - 1);
    }
    let bx = Aabb {
        x: Interval::make(xlo, xhi),
        y: Interval::make(ylo, yhi),
        z: Interval::point(0),
    };
    proof {
        assert forall|px: int, py: int|
            px0 <= px < px0 + ts && py0 <= py < py0 + ts implies bx.holds(
            world_of(v.sx as int, v.ox as int, n as int, px),
            world_of(v.sy as int, v.oy as int, n as int, py),
            0,
        ) by {
            lemma_world_mono(v.sx as int, v.ox as int, n as int, px0 as int, px);
            lemma_world_mono(v.sx as int, v.ox as int, n as int, px, px0 + ts - 1);
            lemma_world_mono(v.sy as int, v.oy as int, n as int, py0 as int, py);
            lemma_world_mono(v.sy as int, v.oy as int, n as int, py, py0 + ts - 1);
        }
    }
    proof {
        assert(bx == tile_box(n as int, v, gx0 + lx0, gy0 + ly0, ts as int));
    }
    let (iv, trace) = {
        let t = handle.i_tape(tp);
        t.eval_interval(&bx)
    };
    let ghost e0 = handle.expr_of();
    if prune && iv.hi <= 0 {
        fill_tile(buf, s0, lx0, ly0, ts, Pix::Tile { level, inside: true });
        proof {
            assert forall|lx: int, ly: int|
                0 <= lx < s0 && 0 <= ly < s0 && in_tile(
                    lx0 as int,
                    ly0 as int,
                    ts as int,
                    lx,
                    ly,
                ) implies pix_ok(
                buf@[#[trigger] idx(s0 as int, lx, ly)],
                root@,
                n as int,
                v,
                gx0 + lx,
                gy0 + ly,
            ) by {
                let px = gx0 + lx;
                let py = gy0 + ly;
                assert(bx.holds(
                    world_of(v.sx as int, v.ox as int, n as int, px),
                    world_of(v.sy as int, v.oy as int, n as int, py),
                    0,
                ));
                assert(iv.holds(eval(
                    e0,
                    world_of(v.sx as int, v.ox as int, n as int, px),
                    world_of(v.sy as int, v.oy as int, n as int, py),
                    0,
                )));
                assert(pixel_val(e0, n as int, v, px, py) <= 0);
                assert(pixel_val(root@, n as int, v, px, py) == pixel_val(e0, n as int, v, px, py));
            }
            assert forall|lx: int, ly: int|
                0 <= lx < s0 && 0 <= ly < s0 && in_tile(
                    lx0 as int,
                    ly0 as int,
                    ts as int,
                    lx,
                    ly,
                ) implies buf@[#[trigger] idx(s0 as int, lx, ly)] == tile_pix(
                e0,
                tiles@,
                level as int,
                n as int,
                v,
                gx0 + lx0,
                gy0 + ly0,
                gx0 + lx,
                gy0 + ly,
            ) by {}
        }
    } else if prune && iv.lo >= 1 {
        fill_tile(buf, s0, lx0, ly0, ts, Pix::Tile { level, inside: false });
        proof {
            assert forall|lx: int, ly: int|
                0 <= lx < s0 && 0 <= ly < s0 && in_tile(
                    lx0 as int,
                    ly0 as int,
                    ts as int,
                    lx,
                    ly,
                ) implies pix_ok(
                buf@[#[trigger] idx(s0 as int, lx, ly)],
                root@,
                n as int,
                v,
                gx0 + lx,
                gy0 + ly,
            ) by {
                let px = gx0 + lx;
                let py = gy0 + ly;
                assert(bx.holds(
                    world_of(v.sx as int, v.ox as int, n as int, px),
                    world_of(v.sy as int, v.oy as int, n as int, py),
                    0,
                ));
                assert(iv.holds(eval(
                    e0,
                    world_of(v.sx as int, v.ox as int, n as int, px),
                    world_of(v.sy as int, v.oy as int, n as int, py),
                    0,
                )));
                assert(pixel_val(e0, n as int, v, px, py) > 0);
                assert(pixel_val(root@, n as int, v, px, py) == pixel_val(e0, n as int, v, px, py));
            }
            assert forall|lx: int, ly: int|
                0 <= lx < s0 && 0 <= ly < s0 && in_tile(
                    lx0 as int,
                    ly0 as int,
                    ts as int,
                    lx,
                    ly,
                ) implies buf@[#[trigger] idx(s0 as int, lx, ly)] == tile_pix(
                e0,
                tiles@,
                level as int,
                n as int,
                v,
                gx0 + lx0,
                gy0 + ly0,
                gx0 + lx,
                gy0 + ly,
            ) by {}
        }
    } else if level + 1 < nlev {
        let lvl1 = level + 1;
        let nts = tiles.get(lvl1).unwrap();
        let k = ts / nts;
        proof {
            assert(nts as int == tiles@[level as int + 1] && nts > 0 && nts < ts && ts as int
                % nts as int == 0);
            vstd::arithmetic::div_mod::lemma_fundamental_div_mod(ts as int, nts as int);
            assert(ts as int == nts as int * (k as int));
            assert(k as int * nts as int == ts as int) by (nonlinear_arith)
                requires
                    ts as int == nts as int * (k as int),
            ;
        }
        let mut j: usize = 0;
        while j < k
            invariant
                tiles@[0] == s0 && tiles@[level as int] == ts && level < tiles@.len(),
                level + 1 < tiles@.len() && tiles@[level as int + 1] == nts,
                lvl1 == level + 1,
                0 < nts < ts,
                0 <= j <= k,
                k as int * nts as int == ts as int,
                s0 <= 0x7fff_ffff,
                s0 * s0 <= usize::MAX,
                n <= 0x7fff_ffff,
                v.wf(),
                gx0 <= n,
                gy0 <= n,
                lx0 + ts <= s0,
                ly0 + ts <= s0,
                buf@.len() == s0 * s0,
                handle.wf(),
                handle.expr_of() == e0,
                trace_valid(e0, trace, bx),
                trace == spec_trace(e0, bx),
                iv == spec_interval(e0, bx),
                bx == tile_box(n as int, v, gx0 + lx0, gy0 + ly0, ts as int),
                prune ==> !(iv.hi <= 0) && !(iv.lo >= 1),
                forall|px: int, py: int|
                    gx0 + lx0 <= px < gx0 + lx0 + ts && gy0 + ly0 <= py < gy0 + ly0 + ts
                        ==> #[trigger] pixel_val(e0, n as int, v, px, py) == pixel_val(
                        root@,
                        n as int,
                        v,
                        px,
                        py,
                    ),
                forall|px: int, py: int|
                    #![trigger world_of(v.sx as int, v.ox as int, n as int, px), world_of(v.sy as int, v.oy as int, n as int, py)]
                    px0 <= px < px0 + ts && py0 <= py < py0 + ts ==> bx.holds(
                        world_of(v.sx as int, v.ox as int, n as int, px),
                        world_of(v.sy as int, v.oy as int, n as int, py),
                        0,
                    ),
                px0 == gx0 + lx0 && py0 == gy0 + ly0,
                forall|lx: int, ly: int|
                    0 <= lx < s0 && 0 <= ly < s0 && in_tile(
                        lx0 as int,
                        ly0 as int,
                        ts as int,
                        lx,
                        ly,
                    ) && ly < ly0 + j * nts ==> pix_ok(
                        buf@[#[trigger] idx(s0 as int, lx, ly)],
                        root@,
                        n as int,
                        v,
                        gx0 + lx,
                        gy0 + ly,
                    ),
                !prune ==> (forall|lx: int, ly: int|
                    0 <= lx < s0 && 0 <= ly < s0 && in_tile(
                        lx0 as int,
                        ly0 as int,
                        ts as int,
                        lx,
                        ly,
                    ) && ly < ly0 + j * nts ==> buf@[#[trigger] idx(s0 as int, lx, ly)]
                        == sample_pix(root@, n as int, v, gx0 + lx, gy0 + ly, tiles@.len() - 1)),
                prune ==> (forall|lx: int, ly: int|
                    0 <= lx < s0 && 0 <= ly < s0 && in_tile(
                        lx0 as int,
                        ly0 as int,
                        ts as int,
                        lx,
                        ly,
                    ) && ly < ly0 + j * nts ==> buf@[#[trigger] idx(s0 as int, lx, ly)]
                        == tile_pix(
                        e0,
                        tiles@,
                        level as int,
                        n as int,
                        v,
                        gx0 + lx0,
                        gy0 + ly0,
                        gx0 + lx,
                        gy0 + ly,
                    )),
                forall|lx: int, ly: int|
                    0 <= lx < s0 && 0 <= ly < s0 && !(in_tile(
                        lx0 as int,
                        ly0 as int,
                        ts as int,
                        lx,
                        ly,
                    ) && ly < ly0 + j * nts) ==> buf@[#[trigger] idx(s0 as int, lx, ly)] == old(
                        buf,
                    )@[idx(s0 as int, lx, ly)],
            decreases k - j,
        {
            proof {
                assert(0 <= j as int * nts as int && j as int * nts as int + nts as int
                    <= k as int * nts as int) by (nonlinear_arith)
                    requires
                        0 <= j < k,
                        0 < nts,
                ;
            }
            let mut i: usize = 0;
            while i < k
                invariant
                    tiles@[0] == s0 && tiles@[level as int] == ts && level < tiles@.len(),
                    level + 1 < tiles@.len() && tiles@[level as int + 1] == nts,
                    lvl1 == level + 1,
                    0 < nts < ts,
                    0 <= i <= k,
                    0 <= j < k,
                    k as int * nts as int == ts as int,
                    j as int * nts as int + nts as int <= ts as int,
                    s0 <= 0x7fff_ffff,
                    s0 * s0 <= usize::MAX,
                    n <= 0x7fff_ffff,
                    v.wf(),
                    gx0 <= n,
                    gy0 <= n,
                    lx0 + ts <= s0,
                    ly0 + ts <= s0,
                    buf@.len() == s0 * s0,
                    handle.wf(),
                    handle.expr_of() == e0,
                    trace_valid(e0, trace, bx),
                    trace == spec_trace(e0, bx),
                    iv == spec_interval(e0, bx),
                    bx == tile_box(n as int, v, gx0 + lx0, gy0 + ly0, ts as int),
                    prune ==> !(iv.hi <= 0) && !(iv.lo >= 1),
                    forall|px: int, py: int|
                        gx0 + lx0 <= px < gx0 + lx0 + ts && gy0 + ly0 <= py < gy0 + ly0 + ts
                            ==> #[trigger] pixel_val(e0, n as int, v, px, py) == pixel_val(
                            root@,
                            n as int,
                            v,
                            px,
                            py,
                        ),
                    forall|px: int, py: int|
                        #![trigger world_of(v.sx as int, v.ox as int, n as int, px), world_of(v.sy as int, v.oy as int, n as int, py)]
                        px0 <= px < px0 + ts && py0 <= py < py0 + ts ==> bx.holds(
                            world_of(v.sx as int, v.ox as int, n as int, px),
                            world_of(v.sy as int, v.oy as int, n as int, py),
                            0,
                        ),
                    px0 == gx0 + lx0 && py0 == gy0 + ly0,
                    forall|lx: int, ly: int|
                        0 <= lx < s0 && 0 <= ly < s0 && in_tile(
                            lx0 as int,
                            ly0 as int,
                            ts as int,
                            lx,
                            ly,
                        ) && (ly < ly0 + j * nts || (ly < ly0 + j * nts + nts && lx < lx0 + i
                            * nts)) ==> pix_ok(
                            buf@[#[trigger] idx(s0 as int, lx, ly)],
                            root@,
                            n as int,
                            v,
                            gx0 + lx,
                            gy0 + ly,
                        ),
                    !prune ==> (forall|lx: int, ly: int|
                        0 <= lx < s0 && 0 <= ly < s0 && in_tile(
                            lx0 as int,
                            ly0 as int,
                            ts as int,
                            lx,
                            ly,
                        ) && (ly < ly0 + j * nts || (ly < ly0 + j * nts + nts && lx < lx0 + i
                            * nts)) ==> buf@[#[trigger] idx(s0 as int, lx, ly)] == sample_pix(
                            root@,
                            n as int,
                            v,
                            gx0 + lx,
                            gy0 + ly,
                            tiles@.len() - 1,
                        )),
                    prune ==> (forall|lx: int, ly: int|
                        0 <= lx < s0 && 0 <= ly < s0 && in_tile(
                            lx0 as int,
                            ly0 as int,
                            ts as int,
                            lx,
                            ly,
                        ) && (ly < ly0 + j * nts || (ly < ly0 + j * nts + nts && lx < lx0 + i
                            * nts)) ==> buf@[#[trigger] idx(s0 as int, lx, ly)] == tile_pix(
                            e0,
                            tiles@,
                            level as int,
                            n as int,
                            v,
                            gx0 + lx0,
                            gy0 + ly0,
                            gx0 + lx,
                            gy0 + ly,
                        )),
                    forall|lx: int, ly: int|
                        0 <= lx < s0 && 0 <= ly < s0 && !(in_tile(
                            lx0 as int,
                            ly0 as int,
                            ts as int,
                            lx,
                            ly,
                        ) && (ly < ly0 + j * nts || (ly < ly0 + j * nts + nts && lx < lx0 + i
                            * nts))) ==> buf@[#[trigger] idx(s0 as int, lx, ly)] == old(buf)@[idx(
                            s0 as int,
                            lx,
                            ly,
                        )],
                decreases k - i,
            {
                proof {
                    assert(0 <= i as int * nts as int && i as int * nts as int + nts as int
                        <= k as int * nts as int) by (nonlinear_arith)
                        requires
                            0 <= i < k,
                            0 < nts,
                    ;
                }
                let slx = lx0 + i * nts;
                let sly = ly0 + j * nts;
                let ghost pre = buf@;
                let sub = if trace.has_decision() {
                    handle.simplify(&trace, ws, sp, tp)
                } else {
                    &mut *handle
                };
                proof {
                    assert forall|px: int, py: int|
                        gx0 + slx <= px < gx0 + slx + nts && gy0 + sly <= py < gy0 + sly
                            + nts implies #[trigger] pixel_val(sub.expr_of(), n as int, v, px, py)
                        == pixel_val(root@, n as int, v, px, py) by {
                        if sub.expr_of() != e0 {
                            lemma_simplify_eval(
                                e0,
                                trace,
                                bx,
                                world_of(v.sx as int, v.ox as int, n as int, px),
                                world_of(v.sy as int, v.oy as int, n as int, py),
                                0,
                            );
                        }
                        assert(pixel_val(e0, n as int, v, px, py) == pixel_val(
                            root@,
                            n as int,
                            v,
                            px,
                            py,
                        ));
                    }
                }
                proof {
                    assert(sub.expr_of() == descend_expr(e0, bx));
                }
                render_tile_rec(
                    sub,
                    tiles,
                    lvl1,
                    n,
                    v,
                    gx0,
                    gy0,
                    slx,
                    sly,
                    prune,
                    buf,
                    ws,
                    sp,
                    tp,
                    root,
                );
                proof {
                    assert forall|lx: int, ly: int|
                        0 <= lx < s0 && 0 <= ly < s0 && in_tile(
                            lx0 as int,
                            ly0 as int,
                            ts as int,
                            lx,
                            ly,
                        ) && (ly < ly0 + j * nts || (ly < ly0 + j * nts + nts && lx < lx0 + (i + 1)
                            * nts)) implies pix_ok(
                        buf@[#[trigger] idx(s0 as int, lx, ly)],
                        root@,
                        n as int,
                        v,
                        gx0 + lx,
                        gy0 + ly,
                    ) by {
                        assert((i as int + 1) * nts as int == i as int * nts as int
                            + nts as int) by (nonlinear_arith);
                        if !(in_tile(slx as int, sly as int, nts as int, lx, ly)) {
                            assert(buf@[idx(s0 as int, lx, ly)] == pre[idx(s0 as int, lx, ly)]);
                        }
                    }
                    if !prune {
                        assert forall|lx: int, ly: int|
                            0 <= lx < s0 && 0 <= ly < s0 && in_tile(
                                lx0 as int,
                                ly0 as int,
                                ts as int,
                                lx,
                                ly,
                            ) && (ly < ly0 + j * nts || (ly < ly0 + j * nts + nts && lx < lx0 + (i
                                + 1) * nts)) implies buf@[#[trigger] idx(s0 as int, lx, ly)]
                            == sample_pix(
                            root@,
                            n as int,
                            v,
                            gx0 + lx,
                            gy0 + ly,
                            tiles@.len() - 1,
                        ) by {
                            assert((i as int + 1) * nts as int == i as int * nts as int
                                + nts as int) by (nonlinear_arith);
                            if !(in_tile(slx as int, sly as int, nts as int, lx, ly)) {
                                assert(buf@[idx(s0 as int, lx, ly)] == pre[idx(s0 as int, lx, ly)]);
                            }
                        }
                    }
                    if prune {
                        assert forall|lx: int, ly: int|
                            0 <= lx < s0 && 0 <= ly < s0 && in_tile(
                                lx0 as int,
                                ly0 as int,
                                ts as int,
                                lx,
                                ly,
                            ) && (ly < ly0 + j * nts || (ly < ly0 + j * nts + nts && lx < lx0 + (i
                                + 1) * nts)) implies buf@[#[trigger] idx(s0 as int, lx, ly)]
                            == tile_pix(
                            e0,
                            tiles@,
                            level as int,
                            n as int,
                            v,
                            gx0 + lx0,
                            gy0 + ly0,
                            gx0 + lx,
                            gy0 + ly,
                        ) by {
                            assert((i as int + 1) * nts as int == i as int * nts as int
                                + nts as int) by (nonlinear_arith);
                            if in_tile(slx as int, sly as int, nts as int, lx, ly) {
                                let px = gx0 + lx;
                                let py = gy0 + ly;
                                vstd::arithmetic::div_mod::lemma_fundamental_div_mod_converse(
                                    px - (gx0 + lx0),
                                    nts as int,
                                    i as int,
                                    px - (gx0 + lx0) - i as int * nts as int,
                                );
                                vstd::arithmetic::div_mod::lemma_fundamental_div_mod_converse(
                                    py - (gy0 + ly0),
                                    nts as int,
                                    j as int,
                                    py - (gy0 + ly0) - j as int * nts as int,
                                );
                                assert((px - (gx0 + lx0)) / (nts as int) == i as int);
                                assert((py - (gy0 + ly0)) / (nts as int) == j as int);
                                assert(buf@[idx(s0 as int, lx, ly)] == tile_pix(
                                    descend_expr(e0, bx),
                                    tiles@,
                                    level as int + 1,
                                    n as int,
                                    v,
                                    gx0 + slx,
                                    gy0 + sly,
                                    px,
                                    py,
                                ));
                            } else {
                                assert(buf@[idx(s0 as int, lx, ly)] == pre[idx(s0 as int, lx, ly)]);
                            }
                        }
                    }
                    assert forall|lx: int, ly: int|
                        0 <= lx < s0 && 0 <= ly < s0 && !(in_tile(
                            lx0 as int,
                            ly0 as int,
                            ts as int,
                            lx,
                            ly,
                        ) && (ly < ly0 + j * nts || (ly < ly0 + j * nts + nts && lx < lx0 + (i + 1)
                            * nts))) implies buf@[#[trigger] idx(s0 as int, lx, ly)] == old(
                        buf,
                    )@[idx(s0 as int, lx, ly)] by {
                        assert((i as int + 1) * nts as int == i as int * nts as int
                            + nts as int) by (nonlinear_arith);
                        assert(!(in_tile(slx as int, sly as int, nts as int, lx, ly)));
                        assert(buf@[idx(s0 as int, lx, ly)] == pre[idx(s0 as int, lx, ly)]);
                    }
                }
                i = i + 1;
            }
            proof {
                assert((j as int + 1) * nts as int == j as int * nts as int
                    + nts as int) by (nonlinear_arith);
            }
            j = j + 1;
        }
        proof {
            assert(j as int * nts as int == ts as int) by (nonlinear_arith)
                requires
                    j == k,
                    k as int * nts as int == ts as int,
            ;
        }
    } else {
        // Deepest level: bulk-evaluate the tile's pixels row by row.
        let ghost pre0 = buf@;
        let mut row: usize = 0;
        while row < ts
            invariant
                tiles@[0] == s0 && tiles@[level as int] == ts && level < tiles@.len(),
                level as int == tiles@.len() - 1,
                0 < ts,
                0 <= row <= ts,
                s0 <= 0x7fff_ffff,
                s0 * s0 <= usize::MAX,
                n <= 0x7fff_ffff,
                v.wf(),
                gx0 <= n,
                gy0 <= n,
                lx0 + ts <= s0,
                ly0 + ts <= s0,
                buf@.len() == s0 * s0,
                handle.wf(),
                handle.expr_of() == e0,
                trace_valid(e0, trace, bx),
                trace == spec_trace(e0, bx),
                iv == spec_interval(e0, bx),
                bx == tile_box(n as int, v, gx0 + lx0, gy0 + ly0, ts as int),
                prune ==> !(iv.hi <= 0) && !(iv.lo >= 1),
                forall|px: int, py: int|
                    gx0 + lx0 <= px < gx0 + lx0 + ts && gy0 + ly0 <= py < gy0 + ly0 + ts
                        ==> #[trigger] pixel_val(e0, n as int, v, px, py) == pixel_val(
                        root@,
                        n as int,
                        v,
                        px,
                        py,
                    ),
                forall|px: int, py: int|
                    #![trigger world_of(v.sx as int, v.ox as int, n as int, px), world_of(v.sy as int, v.oy as int, n as int, py)]
                    px0 <= px < px0 + ts && py0 <= py < py0 + ts ==> bx.holds(
                        world_of(v.sx as int, v.ox as int, n as int, px),
                        world_of(v.sy as int, v.oy as int, n as int, py),
                        0,
                    ),
                px0 == gx0 + lx0 && py0 == gy0 + ly0,
                forall|lx: int, ly: int|
                    0 <= lx < s0 && 0 <= ly < s0 && in_tile(
                        lx0 as int,
                        ly0 as int,
                        ts as int,
                        lx,
                        ly,
                    ) && ly < ly0 + row ==> pix_ok(
                        buf@[#[trigger] idx(s0 as int, lx, ly)],
                        root@,
                        n as int,
                        v,
                        gx0 + lx,
                        gy0 + ly,
                    ),
                forall|lx: int, ly: int|
                    0 <= lx < s0 && 0 <= ly < s0 && in_tile(
                        lx0 as int,
                        ly0 as int,
                        ts as int,
                        lx,
                        ly,
                    ) && ly < ly0 + row ==> buf@[#[trigger] idx(s0 as int, lx, ly)] == sample_pix(
                        root@,
                        n as int,
                        v,
                        gx0 + lx,
                        gy0 + ly,
                        tiles@.len() - 1,
                    ),
                prune ==> (forall|lx: int, ly: int|
                    0 <= lx < s0 && 0 <= ly < s0 && in_tile(
                        lx0 as int,
                        ly0 as int,
                        ts as int,
                        lx,
                        ly,
                    ) && ly < ly0 + row ==> buf@[#[trigger] idx(s0 as int, lx, ly)] == tile_pix(
                        e0,
                        tiles@,
                        level as int,
                        n as int,
                        v,
                        gx0 + lx0,
                        gy0 + ly0,
                        gx0 + lx,
                        gy0 + ly,
                    )),
                forall|lx: int, ly: int|
                    0 <= lx < s0 && 0 <= ly < s0 && !(in_tile(
                        lx0 as int,
                        ly0 as int,
                        ts as int,
                        lx,
                        ly,
                    ) && ly < ly0 + row) ==> buf@[#[trigger] idx(s0 as int, lx, ly)] == old(
                        buf,
                    )@[idx(s0 as int, lx, ly)],
            decreases ts - row,
        {
            let mut xs: Vec<i64> = Vec::new();
            let mut ys: Vec<i64> = Vec::new();
            let mut zs: Vec<i64> = Vec::new();
            let yw = world_coord(v.sy, v.oy, n, py0 + row);
            let mut c: usize = 0;
            while c < ts
                invariant
                    0 <= c <= ts,
                    n <= 0x7fff_ffff,
                    gx0 <= n,
                    gy0 <= n,
                    lx0 + ts <= s0,
                    s0 <= 0x7fff_ffff,
                    px0 == gx0 + lx0 && py0 == gy0 + ly0,
                    row < ts,
                    xs@.len() == c && ys@.len() == c && zs@.len() == c,
                    yw as int == world_of(v.sy as int, v.oy as int, n as int, py0 + row),
                    forall|m: int|
                        0 <= m < c ==> #[trigger] xs@[m] as int == world_of(
                            v.sx as int,
                            v.ox as int,
                            n as int,
                            px0 + m,
                        ),
                    forall|m: int| 0 <= m < c ==> #[trigger] ys@[m] == yw,
                    forall|m: int| 0 <= m < c ==> #[trigger] zs@[m] == 0i64,
                decreases ts - c,
            {
                xs.push(world_coord(v.sx, v.ox, n, px0 + c));
                ys.push(yw);
                zs.push(0);
                c = c + 1;
            }
            let ghost pre = buf@;
            let sub = if trace.has_decision() {
                handle.simplify(&trace, ws, sp, tp)
            } else {
                &mut *handle
            };
            proof {
                assert forall|px: int, py: int|
                    gx0 + lx0 <= px < gx0 + lx0 + ts && gy0 + ly0 <= py < gy0 + ly0
                        + ts implies #[trigger] pixel_val(sub.expr_of(), n as int, v, px, py)
                    == pixel_val(root@, n as int, v, px, py) by {
                    if sub.expr_of() != e0 {
                        lemma_simplify_eval(
                            e0,
                            trace,
                            bx,
                            world_of(v.sx as int, v.ox as int, n as int, px),
                            world_of(v.sy as int, v.oy as int, n as int, py),
                            0,
                        );
                    }
                    assert(pixel_val(e0, n as int, v, px, py) == pixel_val(
                        root@,
                        n as int,
                        v,
                        px,
                        py,
                    ));
                }
            }
            proof {
                assert(sub.expr_of() == descend_expr(e0, bx));
            }
            let fs = {
                let t = sub.f_tape(tp);
                t.eval_float_slice(&xs, &ys, &zs)
            };
            proof {
                assert forall|m: int|
                    0 <= m < ts implies #[trigger] fs@[m] as int == eval(
                    descend_expr(e0, bx),
                    world_of(v.sx as int, v.ox as int, n as int, px0 + m),
                    world_of(v.sy as int, v.oy as int, n as int, py0 + row),
                    0,
                ) by {
                    assert(fs@[m] as int == eval(
                        sub.expr_of(),
                        xs@[m] as int,
                        ys@[m] as int,
                        zs@[m] as int,
                    ));
                }
                assert forall|m: int|
                    0 <= m < ts implies #[trigger] fs@[m] as int == pixel_val(
                    root@,
                    n as int,
                    v,
                    px0 + m,
                    py0 + row,
                ) by {
                    assert(fs@[m] as int == eval(
                        sub.expr_of(),
                        xs@[m] as int,
                        ys@[m] as int,
                        zs@[m] as int,
                    ));
                    assert(pixel_val(sub.expr_of(), n as int, v, px0 + m, py0 + row) == pixel_val(
                        root@,
                        n as int,
                        v,
                        px0 + m,
                        py0 + row,
                    ));
                }
            }
            write_sample_row(buf, s0, lx0, ly0 + row, ts, &fs, level);
            proof {
                assert forall|lx: int, ly: int|
                    0 <= lx < s0 && 0 <= ly < s0 && in_tile(
                        lx0 as int,
                        ly0 as int,
                        ts as int,
                        lx,
                        ly,
                    ) && ly < ly0 + row + 1 implies pix_ok(
                    buf@[#[trigger] idx(s0 as int, lx, ly)],
                    root@,
                    n as int,
                    v,
                    gx0 + lx,
                    gy0 + ly,
                ) by {
                    if ly == ly0 + row {
                        assert(buf@[idx(s0 as int, lx, ly)] == (Pix::Sample {
                            f: fs@[lx - lx0],
                            level,
                        }));
                        assert(fs@[lx - lx0] as int == pixel_val(
                            root@,
                            n as int,
                            v,
                            px0 + (lx - lx0),
                            py0 + row,
                        ));
                    } else {
                        assert(buf@[idx(s0 as int, lx, ly)] == pre[idx(s0 as int, lx, ly)]);
                    }
                }
                assert(level as int == tiles@.len() - 1);
                assert forall|lx: int, ly: int|
                    0 <= lx < s0 && 0 <= ly < s0 && in_tile(
                        lx0 as int,
                        ly0 as int,
                        ts as int,
                        lx,
                        ly,
                    ) && ly < ly0 + row + 1 implies buf@[#[trigger] idx(s0 as int, lx, ly)]
                    == sample_pix(root@, n as int, v, gx0 + lx, gy0 + ly, tiles@.len() - 1) by {
                    if ly == ly0 + row {
                        assert(buf@[idx(s0 as int, lx, ly)] == (Pix::Sample {
                            f: fs@[lx - lx0],
                            level,
                        }));
                        assert(fs@[lx - lx0] as int == pixel_val(
                            root@,
                            n as int,
                            v,
                            px0 + (lx - lx0),
                            py0 + row,
                        ));
                    } else {
                        assert(buf@[idx(s0 as int, lx, ly)] == pre[idx(s0 as int, lx, ly)]);
                    }
                }
                if prune {
                    assert forall|lx: int, ly: int|
                        0 <= lx < s0 && 0 <= ly < s0 && in_tile(
                            lx0 as int,
                            ly0 as int,
                            ts as int,
                            lx,
                            ly,
                        ) && ly < ly0 + row + 1 implies buf@[#[trigger] idx(s0 as int, lx, ly)]
                        == tile_pix(
                        e0,
                        tiles@,
                        level as int,
                        n as int,
                        v,
                        gx0 + lx0,
                        gy0 + ly0,
                        gx0 + lx,
                        gy0 + ly,
                    ) by {
                        if ly == ly0 + row {
                            assert(buf@[idx(s0 as int, lx, ly)] == (Pix::Sample {
                                f: fs@[lx - lx0],
                                level,
                            }));
                            assert(fs@[lx - lx0] as int == eval(
                                descend_expr(e0, bx),
                                world_of(v.sx as int, v.ox as int, n as int, gx0 + lx),
                                world_of(v.sy as int, v.oy as int, n as int, gy0 + ly),
                                0,
                            ));
                        } else {
                            assert(buf@[idx(s0 as int, lx, ly)] == pre[idx(s0 as int, lx, ly)]);
                        }
                    }
                }
                assert forall|lx: int, ly: int|
                    0 <= lx < s0 && 0 <= ly < s0 && !(in_tile(
                        lx0 as int,
                        ly0 as int,
                        ts as int,
                        lx,
                        ly,
                    ) && ly < ly0 + row + 1) implies buf@[#[trigger] idx(s0 as int, lx, ly)]
                    == old(buf)@[idx(s0 as int, lx, ly)] by {
                    assert(buf@[idx(s0 as int, lx, ly)] == pre[idx(s0 as int, lx, ly)]);
                }
            }
            row = row + 1;
        }
    }
}

/// A linear root-tile index in a `tw`-wide grid splits into in-range
/// column and row numbers.
pub(crate) proof fn lemma_grid_coords(t: int, tw: int)
    requires
        0 < tw,
        0 <= t < tw * tw,
    ensures
        0 <= t % tw < tw,
        0 <= t / tw < tw,
        t == (t / tw) * tw + t % tw,
{
    vstd::arithmetic::div_mod::lemma_fundamental_div_mod(t, tw);
    vstd::arithmetic::div_mod::lemma_mod_bound(t, tw);
    vstd::arithmetic::div_mod::lemma_div_pos_is_pos(t, tw);
    assert(t / tw < tw) by (nonlinear_arith)
        requires
            0 < tw,
            t < tw * tw,
            t == tw * (t / tw) + t % tw,
            0 <= t % tw,
            0 <= t / tw,
    ;
    assert(t == (t / tw) * tw + t % tw) by (nonlinear_arith)
        requires
            t == tw * (t / tw) + t % tw,
    ;
}

/// With `tw` the number of root tiles per axis, every in-range pixel
/// coordinate falls in exactly the root tile numbered by its quotient.
pub(crate) proof fn lemma_tile_cover(n: int, s0: int, tw: int, px: int)
    requires
        0 < s0,
        0 <= n,
        tw == (n + s0 - 1) / s0,
        0 <= px < n,
    ensures
        0 <= px / s0 < tw,
        (px / s0) * s0 <= px < (px / s0) * s0 + s0,
        (px / s0) * s0 <= n,
{
    vstd::arithmetic::div_mod::lemma_fundamental_div_mod(px, s0);
    vstd::arithmetic::div_mod::lemma_mod_bound(px, s0);
    vstd::arithmetic::div_mod::lemma_div_pos_is_pos(px, s0);
    assert((px / s0) * s0 <= px < (px / s0) * s0 + s0) by (nonlinear_arith)
        requires
            px == s0 * (px / s0) + px % s0,
            0 <= px % s0 < s0,
    ;
    let q = (n - 1) / s0;
    let r = (n - 1) % s0;
    vstd::arithmetic::div_mod::lemma_fundamental_div_mod(n - 1, s0);
    vstd::arithmetic::div_mod::lemma_mod_bound(n - 1, s0);
    assert(n + s0 - 1 == (q + 1) * s0 + r) by (nonlinear_arith)
        requires
            n - 1 == s0 * q + r,
    ;
    vstd::arithmetic::div_mod::lemma_fundamental_div_mod_converse(n + s0 - 1, s0, q + 1, r);
    vstd::arithmetic::div_mod::lemma_div_is_ordered(px, n - 1, s0);
}

/// A pixel inside the root tile at column `tx` has quotient `tx`.
pub(crate) proof fn lemma_pixel_tile(px: int, tx: int, s0: int)
    requires
        0 < s0,
        0 <= tx,
        tx * s0 <= px < tx * s0 + s0,
    ensures
        px / s0 == tx,
{
    vstd::arithmetic::div_mod::lemma_fundamental_div_mod_converse(px, s0, tx, px - tx * s0);
}

/// Renders one root tile of the image into a fresh tile-local buffer:
/// the worker's unit of independent work.  A front end that spreads the
/// root tiles over OS threads gives each thread a clone of the root
/// handle and its own pools, calls this per tile, and composites the
/// buffers; every buffer pixel is faithful to the handle's shape.
pub fn render_root_tile(
    handle: &mut RenderHandle,
    tiles: &TileSizes,
    n: usize,
    v: View2,
    gx0: usize,
    gy0: usize,
    prune: bool,
    ws: &mut Workspace,
    sp: &mut Vec<ShapeStorage>,
    tp: &mut Vec<TapeStorage>,
) -> (buf: Vec<Pix>)
    requires
        0 < tiles@.len(),
        tiles@[0] <= 0x7fff_ffff,
        tiles@[0] * tiles@[0] <= usize::MAX,
        n <= 0x7fff_ffff,
        v.wf(),
        gx0 <= n,
        gy0 <= n,
        old(handle).wf(),
    ensures
        final(handle).wf(),
        final(handle).expr_of() == old(handle).expr_of(),
        buf@.len() == tiles@[0] * tiles@[0],
        forall|lx: int, ly: int|
            0 <= lx < tiles@[0] && 0 <= ly < tiles@[0] ==> pix_ok(
                buf@[#[trigger] idx(tiles@[0] as int, lx, ly)],
                old(handle).expr_of(),
                n as int,
                v,
                gx0 + lx,
                gy0 + ly,
            ),
        !prune ==> (forall|lx: int, ly: int|
            0 <= lx < tiles@[0] && 0 <= ly < tiles@[0] ==> buf@[#[trigger] idx(
                tiles@[0] as int,
                lx,
                ly,
            )] == sample_pix(
                old(handle).expr_of(),
                n as int,
                v,
                gx0 + lx,
                gy0 + ly,
                tiles@.len() - 1,
            )),
        prune && spec_interval(
            old(handle).expr_of(),
            tile_box(n as int, v, gx0 as int, gy0 as int, tiles@[0] as int),
        ).hi <= 0 ==> (forall|lx: int, ly: int|
            0 <= lx < tiles@[0] && 0 <= ly < tiles@[0] ==> buf@[#[trigger] idx(
                tiles@[0] as int,
                lx,
                ly,
            )] == (Pix::Tile { level: 0, inside: true })),
        prune && spec_interval(
            old(handle).expr_of(),
            tile_box(n as int, v, gx0 as int, gy0 as int, tiles@[0] as int),
        ).lo >= 1 ==> (forall|lx: int, ly: int|
            0 <= lx < tiles@[0] && 0 <= ly < tiles@[0] ==> buf@[#[trigger] idx(
                tiles@[0] as int,
                lx,
                ly,
            )] == (Pix::Tile { level: 0, inside: false })),
        prune ==> (forall|lx: int, ly: int|
            0 <= lx < tiles@[0] && 0 <= ly < tiles@[0] ==> buf@[#[trigger] idx(
                tiles@[0] as int,
                lx,
                ly,
            )] == tile_pix(
                old(handle).expr_of(),
                tiles@,
                0,
                n as int,
                v,
                gx0 as int,
                gy0 as int,
                gx0 + lx,
                gy0 + ly,
            )),
{
    let s0 = tiles.get(0).unwrap();
    let ghost root = old(handle).expr_of();
    let mut buf: Vec<Pix> = vec![Pix::Tile { level: 0, inside: false }; s0 * s0];
    render_tile_rec(
        handle,
        tiles,
        0,
        n,
        v,
        gx0,
        gy0,
        0,
        0,
        prune,
        &mut buf,
        ws,
        sp,
        tp,
        Ghost(root),
    );
    buf
}

/// Copies a root-tile buffer into the final image at its global offset,
/// clipping pixels that fall outside the image.
pub fn blit_tile<T: Copy>(
    img: &mut Vec<T>,
    n: usize,
    s0: usize,
    gx0: usize,
    gy0: usize,
    buf: &Vec<T>,
)
    requires
        n <= 0x7fff_ffff,
        s0 <= 0x7fff_ffff,
        n * n <= usize::MAX,
        s0 * s0 <= usize::MAX,
        old(img)@.len() == n * n,
        buf@.len() == s0 * s0,
        gx0 <= n,
        gy0 <= n,
    ensures
        final(img)@.len() == old(img)@.len(),
        forall|px: int, py: int|
            0 <= px < n && 0 <= py < n && gx0 <= px < gx0 + s0 && gy0 <= py < gy0 + s0
                ==> final(img)@[#[trigger] idx(n as int, px, py)] == buf@[idx(
                s0 as int,
                px - gx0,
                py - gy0,
            )],
        forall|px: int, py: int|
            0 <= px < n && 0 <= py < n && !(gx0 <= px < gx0 + s0 && gy0 <= py < gy0 + s0)
                ==> final(img)@[#[trigger] idx(n as int, px, py)] == old(img)@[idx(
                n as int,
                px,
                py,
            )],
{
    broadcast use lemma_idx_bounds, lemma_idx_injective;

    let mut ly: usize = 0;
    while ly < s0
        invariant
            n <= 0x7fff_ffff,
            s0 <= 0x7fff_ffff,
            n * n <= usize::MAX,
            s0 * s0 <= usize::MAX,
            img@.len() == n * n,
            buf@.len() == s0 * s0,
            gx0 <= n,
            gy0 <= n,
            0 <= ly <= s0,
            forall|px: int, py: int|
                0 <= px < n && 0 <= py < n && gx0 <= px < gx0 + s0 && gy0 <= py < gy0 + ly
                    ==> img@[#[trigger] idx(n as int, px, py)] == buf@[idx(
                    s0 as int,
                    px - gx0,
                    py - gy0,
                )],
            forall|px: int, py: int|
                0 <= px < n && 0 <= py < n && !(gx0 <= px < gx0 + s0 && gy0 <= py < gy0 + ly)
                    ==> img@[#[trigger] idx(n as int, px, py)] == old(img)@[idx(
                    n as int,
                    px,
                    py,
                )],
        decreases s0 - ly,
    {
        let py = gy0 + ly;
        if py < n {
            let mut lx: usize = 0;
            while lx < s0
                invariant
                    n <= 0x7fff_ffff,
                    s0 <= 0x7fff_ffff,
                    n * n <= usize::MAX,
                    s0 * s0 <= usize::MAX,
                    img@.len() == n * n,
                    buf@.len() == s0 * s0,
                    gx0 <= n,
                    gy0 <= n,
                    0 <= ly < s0,
                    py == gy0 + ly,
                    py < n,
                    0 <= lx <= s0,
                    forall|px2: int, py2: int|
                        0 <= px2 < n && 0 <= py2 < n && gx0 <= px2 < gx0 + s0 && (py2 < gy0 + ly
                            || (py2 == py && px2 < gx0 + lx)) && gy0 <= py2 ==> img@[#[trigger] idx(
                            n as int,
                            px2,
                            py2,
                        )] == buf@[idx(s0 as int, px2 - gx0, py2 - gy0)],
                    forall|px2: int, py2: int|
                        0 <= px2 < n && 0 <= py2 < n && !(gx0 <= px2 < gx0 + s0 && gy0 <= py2 && (
                        py2 < gy0 + ly || (py2 == py && px2 < gx0 + lx))) ==> img@[#[trigger] idx(
                            n as int,
                            px2,
                            py2,
                        )] == old(img)@[idx(n as int, px2, py2)],
                decreases s0 - lx,
            {
                let px = gx0 + lx;
                if px < n {
                    proof {
                        lemma_idx_bounds(n as int, px as int, py as int);
                        lemma_idx_bounds(s0 as int, lx as int, ly as int);
                    }
                    let i = px + py * n;
                    let b = lx + ly * s0;
                    img[i] = buf[b];
                    proof {
                        assert(i as int == idx(n as int, px as int, py as int));
                        assert forall|px2: int, py2: int|
                            0 <= px2 < n && 0 <= py2 < n && gx0 <= px2 < gx0 + s0 && (py2 < gy0
                                + ly || (py2 == py && px2 < gx0 + lx + 1)) && gy0
                                <= py2 implies img@[#[trigger] idx(n as int, px2, py2)] == buf@[idx(
                            s0 as int,
                            px2 - gx0,
                            py2 - gy0,
                        )] by {
                            lemma_idx_bounds(n as int, px2, py2);
                            lemma_idx_injective(n as int, px2, py2, px as int, py as int);
                        }
                        assert forall|px2: int, py2: int|
                            0 <= px2 < n && 0 <= py2 < n && !(gx0 <= px2 < gx0 + s0 && gy0 <= py2
                                && (py2 < gy0 + ly || (py2 == py && px2 < gx0 + lx
                                + 1))) implies img@[#[trigger] idx(n as int, px2, py2)] == old(
                            img,
                        )@[idx(n as int, px2, py2)] by {
                            lemma_idx_bounds(n as int, px2, py2);
                            lemma_idx_injective(n as int, px2, py2, px as int, py as int);
                        }
                    }
                }
                lx = lx + 1;
            }
        }
        ly = ly + 1;
    }
}

/// The linear index of the root tile containing pixel `(px, py)`, in a
/// grid of `tw` root tiles per axis with root tile edge `s0`.
pub open spec fn tile_of(s0: int, tw: int, px: int, py: int) -> int {
    (py / s0) * tw + px / s0
}

/// The root-tile grid is at most `n` wide, and a tile origin never
/// passes the image edge.
pub(crate) proof fn lemma_tw_bound(n: int, s0: int)
    requires
        0 < s0,
        0 <= n,
    ensures
        0 <= (n + s0 - 1) / s0 <= n,
{
    if n == 0 {
        vstd::arithmetic::div_mod::lemma_fundamental_div_mod_converse(s0 - 1, s0, 0, s0 - 1);
    } else {
        let q = (n - 1) / s0;
        let r = (n - 1) % s0;
        vstd::arithmetic::div_mod::lemma_fundamental_div_mod(n - 1, s0);
        vstd::arithmetic::div_mod::lemma_mod_bound(n - 1, s0);
        assert(n + s0 - 1 == (q + 1) * s0 + r && 0 <= q <= n - 1) by (nonlinear_arith)
            requires
                n - 1 == s0 * q + r,
                0 <= r < s0,
                1 <= s0,
                1 <= n,
        ;
        vstd::arithmetic::div_mod::lemma_fundamental_div_mod_converse(n + s0 - 1, s0, q + 1, r);
    }
}

/// A root-tile origin lies inside the image.
pub(crate) proof fn lemma_origin_bound(n: int, s0: int, tw: int, tx: int)
    requires
        0 < s0,
        1 <= n,
        tw == (n + s0 - 1) / s0,
        0 <= tx < tw,
    ensures
        0 <= tx * s0 <= n,
{
    let q = (n - 1) / s0;
    let r = (n - 1) % s0;
    vstd::arithmetic::div_mod::lemma_fundamental_div_mod(n - 1, s0);
    vstd::arithmetic::div_mod::lemma_mod_bound(n - 1, s0);
    assert(n + s0 - 1 == (q + 1) * s0 + r) by (nonlinear_arith)
        requires
            n - 1 == s0 * q + r,
    ;
    vstd::arithmetic::div_mod::lemma_fundamental_div_mod_converse(n + s0 - 1, s0, q + 1, r);
    assert(0 <= tx * s0 && tx * s0 <= q * s0 && q * s0 <= n - 1) by (nonlinear_arith)
        requires
            0 <= tx <= q,
            0 < s0,
            n - 1 == s0 * q + r,
            0 <= r,
    ;
}

/// Renders the whole image as raw pixels.
///
/// The top-level root-tile grid is split round-robin over the configured
/// number of work units; each unit receives its own clone of the root
/// handle (with no cached simplifications) and its own storage pools and
/// workspace, renders its tiles independently, and the tile buffers are
/// composited into the final image.
///
/// With `prune` set, interval tests settle whole tiles; without it every
/// pixel is sampled individually (as a distance-field render needs).
/// Either way each pixel is pinned pointwise by the shape, the image
/// size and the view alone: neither the tile sizes nor the work-unit
/// count can change any pixel, so renders are deterministic across
/// thread counts.
pub fn render_pixels(shape: Shape, cfg: &ImageRenderConfig, prune: bool) -> (img: Vec<Pix>)
    requires
        cfg.wf(),
    ensures
        img@.len() == cfg.image_size * cfg.image_size,
        forall|px: int, py: int|
            0 <= px < cfg.image_size && 0 <= py < cfg.image_size ==> pix_ok(
                img@[#[trigger] idx(cfg.image_size as int, px, py)],
                shape@,
                cfg.image_size as int,
                cfg.view,
                px,
                py,
            ),
        !prune ==> (forall|px: int, py: int|
            0 <= px < cfg.image_size && 0 <= py < cfg.image_size ==> img@[#[trigger] idx(
                cfg.image_size as int,
                px,
                py,
            )] == sample_pix(
                shape@,
                cfg.image_size as int,
                cfg.view,
                px,
                py,
                cfg.tile_sizes@.len() - 1,
            )),
        prune ==> (forall|px: int, py: int|
            0 <= px < cfg.image_size && 0 <= py < cfg.image_size ==> root_fill(
                shape@,
                cfg.image_size as int,
                cfg.view,
                cfg.tile_sizes@[0] as int,
                px,
                py,
                img@[#[trigger] idx(cfg.image_size as int, px, py)],
            )),
        prune ==> (forall|px: int, py: int|
            0 <= px < cfg.image_size && 0 <= py < cfg.image_size ==> img@[#[trigger] idx(
                cfg.image_size as int,
                px,
                py,
            )] == tile_pix(
                shape@,
                cfg.tile_sizes@,
                0,
                cfg.image_size as int,
                cfg.view,
                (px / (cfg.tile_sizes@[0] as int)) * (cfg.tile_sizes@[0] as int),
                (py / (cfg.tile_sizes@[0] as int)) * (cfg.tile_sizes@[0] as int),
                px,
                py,
            )),
{
    broadcast use lemma_idx_bounds;

    let ghost root_e = shape@;
    let n = cfg.image_size;
    let v = cfg.view;
    proof {
        use_type_invariant(&cfg.tile_sizes);
    }
    let s0 = cfg.tile_sizes.get(0).unwrap();
    proof {
        assert(cfg.tile_sizes@[0] as int > 0);
        assert(n as int * n as int <= 0x4000_0000 && n as int + s0 as int <= 0x1_0000) by (
        nonlinear_arith)
            requires
                n <= 0x7fff,
                0 < s0 <= 0x7fff,
        ;
        lemma_tw_bound(n as int, s0 as int);
    }
    let tw = (n + s0 - 1) / s0;
    proof {
        assert(tw as int * tw as int <= n as int * n as int) by (nonlinear_arith)
            requires
                0 <= tw <= n,
        ;
    }
    let total = tw * tw;
    let mut units = cfg.threads.units();
    if units > total {
        units = if total == 0 {
            1
        } else {
            total
        };
    }
    let handle0 = RenderHandle::new(shape);
    let mut img: Vec<Pix> = vec![Pix::Tile { level: 0, inside: false }; n * n];
    let mut u: usize = 0;
    while u < units
        invariant
            cfg.wf(),
            n == cfg.image_size,
            v == cfg.view,
            0 < s0 <= 0x7fff,
            s0 as int == cfg.tile_sizes@[0],
            cfg.tile_sizes@.len() > 0,
            n <= 0x7fff,
            n as int * n as int <= 0x4000_0000,
            tw as int == (n as int + s0 as int - 1) / s0 as int,
            0 <= tw <= n,
            total == tw * tw,
            total as int <= n as int * n as int,
            n as int * n as int <= 0x4000_0000,
            1 <= units,
            units <= total || total == 0,
            0 <= u <= units,
            handle0.wf(),
            handle0.expr_of() == root_e,
            img@.len() == n * n,
            forall|px: int, py: int|
                0 <= px < n && 0 <= py < n && tile_of(s0 as int, tw as int, px, py) % (units as int)
                    < (u as int) ==> pix_ok(
                    img@[#[trigger] idx(n as int, px, py)],
                    root_e,
                    n as int,
                    v,
                    px,
                    py,
                ),
            !prune ==> (forall|px: int, py: int|
                0 <= px < n && 0 <= py < n && tile_of(s0 as int, tw as int, px, py) % (units as int)
                    < (u as int) ==> img@[#[trigger] idx(n as int, px, py)] == sample_pix(
                    root_e,
                    n as int,
                    v,
                    px,
                    py,
                    cfg.tile_sizes@.len() - 1,
                )),
            prune ==> (forall|px: int, py: int|
                0 <= px < n && 0 <= py < n && tile_of(s0 as int, tw as int, px, py) % (units as int)
                    < (u as int) ==> root_fill(
                    root_e,
                    n as int,
                    v,
                    s0 as int,
                    px,
                    py,
                    img@[#[trigger] idx(n as int, px, py)],
                )),
            prune ==> (forall|px: int, py: int|
                0 <= px < n && 0 <= py < n && tile_of(s0 as int, tw as int, px, py) % (units as int)
                    < (u as int) ==> img@[#[trigger] idx(n as int, px, py)] == tile_pix(
                    root_e,
                    cfg.tile_sizes@,
                    0,
                    n as int,
                    v,
                    (px / (s0 as int)) * (s0 as int),
                    (py / (s0 as int)) * (s0 as int),
                    px,
                    py,
                )),
        decreases units - u,
    {
        let mut h = handle0.clone();
        let mut ws = Workspace::new();
        let mut sp: Vec<ShapeStorage> = Vec::new();
        let mut tp: Vec<TapeStorage> = Vec::new();
        let mut t: usize = u;
        proof {
            vstd::arithmetic::div_mod::lemma_small_mod(u as nat, units as nat);
        }
        while t < total
            invariant
                cfg.wf(),
                n == cfg.image_size,
                v == cfg.view,
                0 < s0 <= 0x7fff,
                s0 as int == cfg.tile_sizes@[0],
                cfg.tile_sizes@.len() > 0,
                n <= 0x7fff,
                n as int * n as int <= 0x4000_0000,
                tw as int == (n as int + s0 as int - 1) / s0 as int,
                0 <= tw <= n,
                total == tw * tw,
                total as int <= n as int * n as int,
                n as int * n as int <= 0x4000_0000,
                1 <= units,
                units <= total || total == 0,
                0 <= u < units,
                (t as int) % (units as int) == u as int,
                u <= t,
                h.wf(),
                h.expr_of() == root_e,
                img@.len() == n * n,
                forall|px: int, py: int|
                    0 <= px < n && 0 <= py < n && (tile_of(s0 as int, tw as int, px, py)
                        % (units as int) < (u as int) || (tile_of(s0 as int, tw as int, px, py)
                        % (units as int) == u as int && u as int <= tile_of(
                        s0 as int,
                        tw as int,
                        px,
                        py,
                    ) && tile_of(s0 as int, tw as int, px, py) < t as int)) ==> pix_ok(
                        img@[#[trigger] idx(n as int, px, py)],
                        root_e,
                        n as int,
                        v,
                        px,
                        py,
                    ),
                !prune ==> (forall|px: int, py: int|
                    0 <= px < n && 0 <= py < n && (tile_of(s0 as int, tw as int, px, py)
                        % (units as int) < (u as int) || (tile_of(s0 as int, tw as int, px, py)
                        % (units as int) == u as int && u as int <= tile_of(
                        s0 as int,
                        tw as int,
                        px,
                        py,
                    ) && tile_of(s0 as int, tw as int, px, py) < t as int)) ==> img@[#[trigger] idx(
                        n as int,
                        px,
                        py,
                    )] == sample_pix(root_e, n as int, v, px, py, cfg.tile_sizes@.len() - 1)),
                prune ==> (forall|px: int, py: int|
                    0 <= px < n && 0 <= py < n && (tile_of(s0 as int, tw as int, px, py)
                        % (units as int) < (u as int) || (tile_of(s0 as int, tw as int, px, py)
                        % (units as int) == u as int && u as int <= tile_of(
                        s0 as int,
                        tw as int,
                        px,
                        py,
                    ) && tile_of(s0 as int, tw as int, px, py) < t as int)) ==> root_fill(
                        root_e,
                        n as int,
                        v,
                        s0 as int,
                        px,
                        py,
                        img@[#[trigger] idx(n as int, px, py)],
                    )),
                prune ==> (forall|px: int, py: int|
                    0 <= px < n && 0 <= py < n && (tile_of(s0 as int, tw as int, px, py)
                        % (units as int) < (u as int) || (tile_of(s0 as int, tw as int, px, py)
                        % (units as int) == u as int && u as int <= tile_of(
                        s0 as int,
                        tw as int,
                        px,
                        py,
                    ) && tile_of(s0 as int, tw as int, px, py) < t as int)) ==> img@[#[trigger] idx(
                        n as int,
                        px,
                        py,
                    )] == tile_pix(
                        root_e,
                        cfg.tile_sizes@,
                        0,
                        n as int,
                        v,
                        (px / (s0 as int)) * (s0 as int),
                        (py / (s0 as int)) * (s0 as int),
                        px,
                        py,
                    )),
            decreases total + units - t,
        {
            proof {
                assert(tw > 0) by (nonlinear_arith)
                    requires
                        total == tw * tw,
                        t < total,
                        0 <= tw,
                ;
                lemma_grid_coords(t as int, tw as int);
            }
            let tx = t % tw;
            let ty = t / tw;
            proof {
                lemma_origin_bound(n as int, s0 as int, tw as int, tx as int);
                lemma_origin_bound(n as int, s0 as int, tw as int, ty as int);
            }
            proof {
                assert(s0 as int * s0 as int <= 0x3fff_8001 && tx as int * s0 as int
                    <= 0x4000_0000 && ty as int * s0 as int <= 0x4000_0000) by (nonlinear_arith)
                    requires
                        0 < s0 <= 0x7fff,
                        0 <= tx <= 0x7fff,
                        0 <= ty <= 0x7fff,
                ;
            }
            let gx0 = tx * s0;
            let gy0 = ty * s0;
            let buf = render_root_tile(
                &mut h,
                &cfg.tile_sizes,
                n,
                v,
                gx0,
                gy0,
                prune,
                &mut ws,
                &mut sp,
                &mut tp,
            );
            let ghost pre = img@;
            blit_tile(&mut img, n, s0, gx0, gy0, &buf);
            proof {
                assert forall|px: int, py: int|
                    0 <= px < n && 0 <= py < n && (tile_of(s0 as int, tw as int, px, py)
                        % (units as int) < (u as int) || (tile_of(s0 as int, tw as int, px, py)
                        % (units as int) == u as int && u as int <= tile_of(
                        s0 as int,
                        tw as int,
                        px,
                        py,
                    ) && tile_of(s0 as int, tw as int, px, py) < t as int
                        + units as int)) implies pix_ok(
                    img@[#[trigger] idx(n as int, px, py)],
                    root_e,
                    n as int,
                    v,
                    px,
                    py,
                ) by {
                    lemma_idx_bounds(n as int, px, py);
                    lemma_tile_cover(n as int, s0 as int, tw as int, px);
                    lemma_tile_cover(n as int, s0 as int, tw as int, py);
                    let tl = tile_of(s0 as int, tw as int, px, py);
                    lemma_idx_injective(tw as int, px / (s0 as int), py / (s0 as int), tx as int,
                        ty as int);
                    if tl == t as int {
                        // this pixel lies in the tile just blitted
                        assert(px / (s0 as int) == tx as int && py / (s0 as int) == ty as int);
                        assert(gx0 <= px < gx0 + s0 && gy0 <= py < gy0 + s0);
                        assert(img@[idx(n as int, px, py)] == buf@[idx(
                            s0 as int,
                            px - gx0,
                            py - gy0,
                        )]);
                        assert(pix_ok(
                            buf@[idx(s0 as int, px - gx0, py - gy0)],
                            root_e,
                            n as int,
                            v,
                            gx0 + (px - gx0),
                            gy0 + (py - gy0),
                        ));
                    } else {
                        // the pixel's tile was done before this step
                        assert(!(gx0 <= px < gx0 + s0 && gy0 <= py < gy0 + s0)) by {
                            if gx0 <= px < gx0 + s0 && gy0 <= py < gy0 + s0 {
                                lemma_pixel_tile(px, tx as int, s0 as int);
                                lemma_pixel_tile(py, ty as int, s0 as int);
                            }
                        }
                        assert(img@[idx(n as int, px, py)] == pre[idx(n as int, px, py)]);
                        if tl % (units as int) == u as int && (t as int) < tl && tl < t as int + units as int {
                            vstd::arithmetic::div_mod::lemma_mod_equivalence(
                                tl,
                                t as int,
                                units as int,
                            );
                            vstd::arithmetic::div_mod::lemma_small_mod(
                                (tl - t) as nat,
                                units as nat,
                            );
                            assert(false);
                        }
                    }
                }
                if !prune {
                    assert forall|px: int, py: int|
                        0 <= px < n && 0 <= py < n && (tile_of(s0 as int, tw as int, px, py)
                            % (units as int) < (u as int) || (tile_of(s0 as int, tw as int, px, py)
                            % (units as int) == u as int && u as int <= tile_of(
                            s0 as int,
                            tw as int,
                            px,
                            py,
                        ) && tile_of(s0 as int, tw as int, px, py) < t as int
                            + units as int)) implies img@[#[trigger] idx(n as int, px, py)]
                        == sample_pix(root_e, n as int, v, px, py, cfg.tile_sizes@.len() - 1) by {
                        lemma_idx_bounds(n as int, px, py);
                        lemma_tile_cover(n as int, s0 as int, tw as int, px);
                        lemma_tile_cover(n as int, s0 as int, tw as int, py);
                        let tl = tile_of(s0 as int, tw as int, px, py);
                        lemma_idx_injective(
                            tw as int,
                            px / (s0 as int),
                            py / (s0 as int),
                            tx as int,
                            ty as int,
                        );
                        if tl == t as int {
                            assert(px / (s0 as int) == tx as int && py / (s0 as int) == ty as int);
                            assert(gx0 <= px < gx0 + s0 && gy0 <= py < gy0 + s0);
                            assert(img@[idx(n as int, px, py)] == buf@[idx(
                                s0 as int,
                                px - gx0,
                                py - gy0,
                            )]);
                            assert(buf@[idx(s0 as int, px - gx0, py - gy0)] == sample_pix(
                                root_e,
                                n as int,
                                v,
                                gx0 + (px - gx0),
                                gy0 + (py - gy0),
                                cfg.tile_sizes@.len() - 1,
                            ));
                        } else {
                            assert(!(gx0 <= px < gx0 + s0 && gy0 <= py < gy0 + s0)) by {
                                if gx0 <= px < gx0 + s0 && gy0 <= py < gy0 + s0 {
                                    lemma_pixel_tile(px, tx as int, s0 as int);
                                    lemma_pixel_tile(py, ty as int, s0 as int);
                                }
                            }
                            assert(img@[idx(n as int, px, py)] == pre[idx(n as int, px, py)]);
                            if tl % (units as int) == u as int && (t as int) < tl && tl < t as int
                                + units as int {
                                vstd::arithmetic::div_mod::lemma_mod_equivalence(
                                    tl,
                                    t as int,
                                    units as int,
                                );
                                vstd::arithmetic::div_mod::lemma_small_mod(
                                    (tl - t) as nat,
                                    units as nat,
                                );
                                assert(false);
                            }
                        }
                    }
                }
                if prune {
                    assert forall|px: int, py: int|
                        0 <= px < n && 0 <= py < n && (tile_of(s0 as int, tw as int, px, py)
                            % (units as int) < (u as int) || (tile_of(s0 as int, tw as int, px, py)
                            % (units as int) == u as int && u as int <= tile_of(
                            s0 as int,
                            tw as int,
                            px,
                            py,
                        ) && tile_of(s0 as int, tw as int, px, py) < t as int
                            + units as int)) implies root_fill(
                        root_e,
                        n as int,
                        v,
                        s0 as int,
                        px,
                        py,
                        img@[#[trigger] idx(n as int, px, py)],
                    ) by {
                        lemma_idx_bounds(n as int, px, py);
                        lemma_tile_cover(n as int, s0 as int, tw as int, px);
                        lemma_tile_cover(n as int, s0 as int, tw as int, py);
                        let tl = tile_of(s0 as int, tw as int, px, py);
                        lemma_idx_injective(
                            tw as int,
                            px / (s0 as int),
                            py / (s0 as int),
                            tx as int,
                            ty as int,
                        );
                        if tl == t as int {
                            assert(px / (s0 as int) == tx as int && py / (s0 as int) == ty as int);
                            assert((px / (s0 as int)) * (s0 as int) == gx0 as int
                                && (py / (s0 as int)) * (s0 as int) == gy0 as int);
                            assert(gx0 <= px < gx0 + s0 && gy0 <= py < gy0 + s0);
                            assert(img@[idx(n as int, px, py)] == buf@[idx(
                                s0 as int,
                                px - gx0,
                                py - gy0,
                            )]);
                            assert(root_box(n as int, v, s0 as int, px, py) == tile_box(
                                n as int,
                                v,
                                gx0 as int,
                                gy0 as int,
                                s0 as int,
                            ));
                        } else {
                            assert(!(gx0 <= px < gx0 + s0 && gy0 <= py < gy0 + s0)) by {
                                if gx0 <= px < gx0 + s0 && gy0 <= py < gy0 + s0 {
                                    lemma_pixel_tile(px, tx as int, s0 as int);
                                    lemma_pixel_tile(py, ty as int, s0 as int);
                                }
                            }
                            assert(img@[idx(n as int, px, py)] == pre[idx(n as int, px, py)]);
                            if tl % (units as int) == u as int && (t as int) < tl && tl < t as int
                                + units as int {
                                vstd::arithmetic::div_mod::lemma_mod_equivalence(
                                    tl,
                                    t as int,
                                    units as int,
                                );
                                vstd::arithmetic::div_mod::lemma_small_mod(
                                    (tl - t) as nat,
                                    units as nat,
                                );
                                assert(false);
                            }
                        }
                    }
                }
                if prune {
                    assert forall|px: int, py: int|
                        0 <= px < n && 0 <= py < n && (tile_of(s0 as int, tw as int, px, py)
                            % (units as int) < (u as int) || (tile_of(s0 as int, tw as int, px, py)
                            % (units as int) == u as int && u as int <= tile_of(
                            s0 as int,
                            tw as int,
                            px,
                            py,
                        ) && tile_of(s0 as int, tw as int, px, py) < t as int
                            + units as int)) implies img@[#[trigger] idx(n as int, px, py)]
                        == tile_pix(
                        root_e,
                        cfg.tile_sizes@,
                        0,
                        n as int,
                        v,
                        (px / (s0 as int)) * (s0 as int),
                        (py / (s0 as int)) * (s0 as int),
                        px,
                        py,
                    ) by {
                        lemma_idx_bounds(n as int, px, py);
                        lemma_tile_cover(n as int, s0 as int, tw as int, px);
                        lemma_tile_cover(n as int, s0 as int, tw as int, py);
                        let tl = tile_of(s0 as int, tw as int, px, py);
                        lemma_idx_injective(
                            tw as int,
                            px / (s0 as int),
                            py / (s0 as int),
                            tx as int,
                            ty as int,
                        );
                        if tl == t as int {
                            assert(px / (s0 as int) == tx as int && py / (s0 as int) == ty as int);
                            assert((px / (s0 as int)) * (s0 as int) == gx0 as int
                                && (py / (s0 as int)) * (s0 as int) == gy0 as int);
                            assert(gx0 <= px < gx0 + s0 && gy0 <= py < gy0 + s0);
                            assert(img@[idx(n as int, px, py)] == buf@[idx(
                                s0 as int,
                                px - gx0,
                                py - gy0,
                            )]);
                            assert(buf@[idx(s0 as int, px - gx0, py - gy0)] == tile_pix(
                                root_e,
                                cfg.tile_sizes@,
                                0,
                                n as int,
                                v,
                                gx0 as int,
                                gy0 as int,
                                gx0 + (px - gx0),
                                gy0 + (py - gy0),
                            ));
                        } else {
                            assert(!(gx0 <= px < gx0 + s0 && gy0 <= py < gy0 + s0)) by {
                                if gx0 <= px < gx0 + s0 && gy0 <= py < gy0 + s0 {
                                    lemma_pixel_tile(px, tx as int, s0 as int);
                                    lemma_pixel_tile(py, ty as int, s0 as int);
                                }
                            }
                            assert(img@[idx(n as int, px, py)] == pre[idx(n as int, px, py)]);
                            if tl % (units as int) == u as int && (t as int) < tl && tl < t as int
                                + units as int {
                                vstd::arithmetic::div_mod::lemma_mod_equivalence(
                                    tl,
                                    t as int,
                                    units as int,
                                );
                                vstd::arithmetic::div_mod::lemma_small_mod(
                                    (tl - t) as nat,
                                    units as nat,
                                );
                                assert(false);
                            }
                        }
                    }
                }
                vstd::arithmetic::div_mod::lemma_mod_add_multiples_vanish(
                    t as int,
                    units as int,
                );
            }
            t = t + units;
        }
        proof {
            assert forall|px: int, py: int|
                0 <= px < n && 0 <= py < n && tile_of(s0 as int, tw as int, px, py) % (units as int)
                    < (u as int) + 1 implies pix_ok(
                img@[#[trigger] idx(n as int, px, py)],
                root_e,
                n as int,
                v,
                px,
                py,
            ) by {
                lemma_tile_cover(n as int, s0 as int, tw as int, px);
                lemma_tile_cover(n as int, s0 as int, tw as int, py);
                let tl = tile_of(s0 as int, tw as int, px, py);
                if tl % (units as int) == u as int && tl < u as int {
                    vstd::arithmetic::div_mod::lemma_small_mod(tl as nat, units as nat);
                }
                assert(0 <= tl < total as int) by (nonlinear_arith)
                    requires
                        0 <= py / (s0 as int) && py / (s0 as int) < tw as int,
                        0 <= px / (s0 as int) && px / (s0 as int) < tw as int,
                        tl == (py / (s0 as int)) * (tw as int) + px / (s0 as int),
                        total as int == tw as int * tw as int,
                ;
            }
            if prune {
                assert forall|px: int, py: int|
                    0 <= px < n && 0 <= py < n && tile_of(s0 as int, tw as int, px, py)
                        % (units as int) < (u as int) + 1 implies img@[#[trigger] idx(
                    n as int,
                    px,
                    py,
                )] == tile_pix(
                    root_e,
                    cfg.tile_sizes@,
                    0,
                    n as int,
                    v,
                    (px / (s0 as int)) * (s0 as int),
                    (py / (s0 as int)) * (s0 as int),
                    px,
                    py,
                ) by {
                    lemma_tile_cover(n as int, s0 as int, tw as int, px);
                    lemma_tile_cover(n as int, s0 as int, tw as int, py);
                    let tl = tile_of(s0 as int, tw as int, px, py);
                    if tl % (units as int) == u as int && tl < u as int {
                        vstd::arithmetic::div_mod::lemma_small_mod(tl as nat, units as nat);
                    }
                    assert(0 <= tl < total as int) by (nonlinear_arith)
                        requires
                            0 <= py / (s0 as int) && py / (s0 as int) < tw as int,
                            0 <= px / (s0 as int) && px / (s0 as int) < tw as int,
                            tl == (py / (s0 as int)) * (tw as int) + px / (s0 as int),
                            total as int == tw as int * tw as int,
                    ;
                }
            }
            if prune {
                assert forall|px: int, py: int|
                    0 <= px < n && 0 <= py < n && tile_of(s0 as int, tw as int, px, py)
                        % (units as int) < (u as int) + 1 implies root_fill(
                    root_e,
                    n as int,
                    v,
                    s0 as int,
                    px,
                    py,
                    img@[#[trigger] idx(n as int, px, py)],
                ) by {
                    lemma_tile_cover(n as int, s0 as int, tw as int, px);
                    lemma_tile_cover(n as int, s0 as int, tw as int, py);
                    let tl = tile_of(s0 as int, tw as int, px, py);
                    if tl % (units as int) == u as int && tl < u as int {
                        vstd::arithmetic::div_mod::lemma_small_mod(tl as nat, units as nat);
                    }
                    assert(0 <= tl < total as int) by (nonlinear_arith)
                        requires
                            0 <= py / (s0 as int) && py / (s0 as int) < tw as int,
                            0 <= px / (s0 as int) && px / (s0 as int) < tw as int,
                            tl == (py / (s0 as int)) * (tw as int) + px / (s0 as int),
                            total as int == tw as int * tw as int,
                    ;
                }
            }
            if !prune {
                assert forall|px: int, py: int|
                    0 <= px < n && 0 <= py < n && tile_of(s0 as int, tw as int, px, py)
                        % (units as int) < (u as int) + 1 implies img@[#[trigger] idx(
                    n as int,
                    px,
                    py,
                )] == sample_pix(root_e, n as int, v, px, py, cfg.tile_sizes@.len() - 1) by {
                    lemma_tile_cover(n as int, s0 as int, tw as int, px);
                    lemma_tile_cover(n as int, s0 as int, tw as int, py);
                    let tl = tile_of(s0 as int, tw as int, px, py);
                    if tl % (units as int) == u as int && tl < u as int {
                        vstd::arithmetic::div_mod::lemma_small_mod(tl as nat, units as nat);
                    }
                    assert(0 <= tl < total as int) by (nonlinear_arith)
                        requires
                            0 <= py / (s0 as int) && py / (s0 as int) < tw as int,
                            0 <= px / (s0 as int) && px / (s0 as int) < tw as int,
                            tl == (py / (s0 as int)) * (tw as int) + px / (s0 as int),
                            total as int == tw as int * tw as int,
                    ;
                }
            }
        }
        u = u + 1;
    }
    proof {
        assert forall|px: int, py: int| 0 <= px < n && 0 <= py < n implies pix_ok(
            img@[#[trigger] idx(n as int, px, py)],
            root_e,
            n as int,
            v,
            px,
            py,
        ) by {
            lemma_tile_cover(n as int, s0 as int, tw as int, px);
            lemma_tile_cover(n as int, s0 as int, tw as int, py);
            let tl = tile_of(s0 as int, tw as int, px, py);
            vstd::arithmetic::div_mod::lemma_mod_bound(tl, units as int);
        }
        if prune {
            assert forall|px: int, py: int| 0 <= px < n && 0 <= py < n implies img@[#[trigger] idx(
                n as int,
                px,
                py,
            )] == tile_pix(
                root_e,
                cfg.tile_sizes@,
                0,
                n as int,
                v,
                (px / (s0 as int)) * (s0 as int),
                (py / (s0 as int)) * (s0 as int),
                px,
                py,
            ) by {
                lemma_tile_cover(n as int, s0 as int, tw as int, px);
                lemma_tile_cover(n as int, s0 as int, tw as int, py);
                let tl = tile_of(s0 as int, tw as int, px, py);
                vstd::arithmetic::div_mod::lemma_mod_bound(tl, units as int);
            }
        }
        if prune {
            assert forall|px: int, py: int| 0 <= px < n && 0 <= py < n implies root_fill(
                root_e,
                n as int,
                v,
                s0 as int,
                px,
                py,
                img@[#[trigger] idx(n as int, px, py)],
            ) by {
                lemma_tile_cover(n as int, s0 as int, tw as int, px);
                lemma_tile_cover(n as int, s0 as int, tw as int, py);
                let tl = tile_of(s0 as int, tw as int, px, py);
                vstd::arithmetic::div_mod::lemma_mod_bound(tl, units as int);
            }
        }
        if !prune {
            assert forall|px: int, py: int| 0 <= px < n && 0 <= py < n implies img@[#[trigger] idx(
                n as int,
                px,
                py,
            )] == sample_pix(root_e, n as int, v, px, py, cfg.tile_sizes@.len() - 1) by {
                lemma_tile_cover(n as int, s0 as int, tw as int, px);
                lemma_tile_cover(n as int, s0 as int, tw as int, py);
                let tl = tile_of(s0 as int, tw as int, px, py);
                vstd::arithmetic::div_mod::lemma_mod_bound(tl, units as int);
            }
        }
    }
    img
}

/// An RGB color with 8-bit channels.
#[derive(Debug, Clone, Copy, PartialEq, Eq, Structural)]
pub struct Rgb {
    pub r: u8,
    pub g: u8,
    pub b: u8,
}

/// The bit-mode value of a raw pixel: is it inside the shape?
pub open spec fn bit_of(p: Pix) -> bool {
    match p {
        Pix::Tile { level, inside } => inside,
        Pix::Sample { f, level } => f <= 0,
    }
}

/// The debug-mode value of a raw pixel: a code naming the tile level
/// that resolved it.  A tile filled at level `L` maps to `2L + 1`
/// (inside) or `2L + 2` (outside), saturating at `251`/`252` for deep
/// levels; an individually sampled pixel maps to `255` (inside) or
/// `254` (outside).
pub open spec fn debug_of(p: Pix) -> u8 {
    match p {
        Pix::Tile { level, inside } => if level > 124 {
            if inside {
                251u8
            } else {
                252u8
            }
        } else if inside {
            (2 * level + 1) as u8
        } else {
            (2 * level + 2) as u8
        },
        Pix::Sample { f, level } => if f <= 0 {
            255u8
        } else {
            254u8
        },
    }
}

/// The distance-field color of a sample value: green inside and red
/// outside, fading to black as the magnitude reaches 255 scalar units.
pub open spec fn sdf_val(f: int) -> Rgb {
    let d = if f < 0 {
        -f
    } else {
        f
    };
    let fade = if d > 255 {
        0u8
    } else {
        (255 - d) as u8
    };
    if f <= 0 {
        Rgb { r: 0, g: fade, b: 0 }
    } else {
        Rgb { r: fade, g: 0, b: 0 }
    }
}

/// The distance-field color of a raw pixel.  A pixel settled by a tile
/// fill (possible only with pruning on) is colored as a unit-magnitude
/// sample; a distance-field render keeps pruning off, so every pixel is
/// an exact sample.
pub open spec fn sdf_of(p: Pix) -> Rgb {
    match p {
        Pix::Sample { f, level } => sdf_val(f as int),
        Pix::Tile { level, inside } => sdf_val(
            if inside {
                -1int
            } else {
                1int
            },
        ),
    }
}

/// Boolean-mask render mode: a pixel is set when it is inside the shape.
#[derive(Debug, Clone, Copy)]
pub struct BitRenderMode;

impl BitRenderMode {
    /// Maps a raw pixel image to the boolean mask.
    pub fn image(&self, pix: &Vec<Pix>) -> (out: Vec<bool>)
        ensures
            out@.len() == pix@.len(),
            forall|i: int| 0 <= i < pix@.len() ==> out@[i] == bit_of(#[trigger] pix@[i]),
    {
        let mut out: Vec<bool> = Vec::new();
        let mut i: usize = 0;
        while i < pix.len()
            invariant
                0 <= i <= pix@.len(),
                out@.len() == i,
                forall|j: int| 0 <= j < i ==> out@[j] == bit_of(#[trigger] pix@[j]),
            decreases pix@.len() - i,
        {
            out.push(match pix[i] {
                Pix::Tile { level: _, inside } => inside,
                Pix::Sample { f, level: _ } => f <= 0,
            });
            i = i + 1;
        }
        out
    }
}

/// Debug render mode: colors each pixel by the tile level that resolved
/// it, making the recursion hierarchy visible.
#[derive(Debug, Clone, Copy)]
pub struct DebugRenderMode;

impl DebugRenderMode {
    /// Maps a raw pixel image to level codes.
    pub fn image(&self, pix: &Vec<Pix>) -> (out: Vec<u8>)
        ensures
            out@.len() == pix@.len(),
            forall|i: int| 0 <= i < pix@.len() ==> out@[i] == debug_of(#[trigger] pix@[i]),
    {
        let mut out: Vec<u8> = Vec::new();
        let mut i: usize = 0;
        while i < pix.len()
            invariant
                0 <= i <= pix@.len(),
                out@.len() == i,
                forall|j: int| 0 <= j < i ==> out@[j] == debug_of(#[trigger] pix@[j]),
            decreases pix@.len() - i,
        {
            let c: u8 = match pix[i] {
                Pix::Tile { level, inside } => if level > 124 {
                    if inside {
                        251
                    } else {
                        252
                    }
                } else {
                    let code = 2 * level + if inside {
                        1
                    } else {
                        2
                    };
                    code as u8
                },
                Pix::Sample { f, level: _ } => if f <= 0 {
                    255
                } else {
                    254
                },
            };
            out.push(c);
            i = i + 1;
        }
        out
    }
}

/// Distance-field render mode: an RGB ramp over the sampled value.
#[derive(Debug, Clone, Copy)]
pub struct SdfRenderMode;

impl SdfRenderMode {
    /// Maps a raw pixel image to ramp colors.
    pub fn image(&self, pix: &Vec<Pix>) -> (out: Vec<Rgb>)
        ensures
            out@.len() == pix@.len(),
            forall|i: int| 0 <= i < pix@.len() ==> out@[i] == sdf_of(#[trigger] pix@[i]),
    {
        let mut out: Vec<Rgb> = Vec::new();
        let mut i: usize = 0;
        while i < pix.len()
            invariant
                0 <= i <= pix@.len(),
                out@.len() == i,
                forall|j: int| 0 <= j < i ==> out@[j] == sdf_of(#[trigger] pix@[j]),
            decreases pix@.len() - i,
        {
            let f: i64 = match pix[i] {
                Pix::Sample { f, level: _ } => f,
                Pix::Tile { level: _, inside } => if inside {
                    -1
                } else {
                    1
                },
            };
            let fade: u8 = if f < -255 || f > 255 {
                0
            } else if f < 0 {
                (255 + f) as u8
            } else {
                (255 - f) as u8
            };
            let c = if f <= 0 {
                Rgb { r: 0, g: fade, b: 0 }
            } else {
                Rgb { r: fade, g: 0, b: 0 }
            };
            out.push(c);
            i = i + 1;
        }
        out
    }
}

/// Renders a boolean mask of the shape.
///
/// The mask equals the pointwise sign of the shape at every pixel
/// center, whatever the tile sizes and work-unit count: interval tests
/// and per-tile simplification only ever accelerate the same answer.
pub fn render_bits(shape: Shape, cfg: &ImageRenderConfig) -> (img: Vec<bool>)
    requires
        cfg.wf(),
    ensures
        img@.len() == cfg.image_size * cfg.image_size,
        forall|px: int, py: int|
            0 <= px < cfg.image_size && 0 <= py < cfg.image_size ==> img@[#[trigger] idx(
                cfg.image_size as int,
                px,
                py,
            )] == (pixel_val(shape@, cfg.image_size as int, cfg.view, px, py) <= 0),
{
    broadcast use lemma_idx_bounds;

    let pix = render_pixels(shape, cfg, true);
    let img = BitRenderMode.image(&pix);
    proof {
        assert forall|px: int, py: int|
            0 <= px < cfg.image_size && 0 <= py < cfg.image_size implies img@[#[trigger] idx(
            cfg.image_size as int,
            px,
            py,
        )] == (pixel_val(shape@, cfg.image_size as int, cfg.view, px, py) <= 0) by {
            lemma_idx_bounds(cfg.image_size as int, px, py);
            assert(pix_ok(
                pix@[idx(cfg.image_size as int, px, py)],
                shape@,
                cfg.image_size as int,
                cfg.view,
                px,
                py,
            ));
        }
    }
    img
}

/// Renders the debug view: each pixel carries the code of the tile
/// level that resolved it, pinned pointwise to the deterministic tile
/// recursion [`tile_pix`] — so debug images are bit-identical across
/// work-unit counts.  A pixel whose whole root tile is decided by
/// interval evaluation carries the root-level code (`1` inside, `2`
/// outside).
pub fn render_debug(shape: Shape, cfg: &ImageRenderConfig) -> (img: Vec<u8>)
    requires
        cfg.wf(),
    ensures
        img@.len() == cfg.image_size * cfg.image_size,
        forall|px: int, py: int|
            0 <= px < cfg.image_size && 0 <= py < cfg.image_size ==> img@[#[trigger] idx(
                cfg.image_size as int,
                px,
                py,
            )] == debug_of(
                tile_pix(
                    shape@,
                    cfg.tile_sizes@,
                    0,
                    cfg.image_size as int,
                    cfg.view,
                    (px / (cfg.tile_sizes@[0] as int)) * (cfg.tile_sizes@[0] as int),
                    (py / (cfg.tile_sizes@[0] as int)) * (cfg.tile_sizes@[0] as int),
                    px,
                    py,
                ),
            ),
        forall|px: int, py: int|
            0 <= px < cfg.image_size && 0 <= py < cfg.image_size && spec_interval(
                shape@,
                root_box(cfg.image_size as int, cfg.view, cfg.tile_sizes@[0] as int, px, py),
            ).hi <= 0 ==> img@[#[trigger] idx(cfg.image_size as int, px, py)] == 1u8,
        forall|px: int, py: int|
            0 <= px < cfg.image_size && 0 <= py < cfg.image_size && spec_interval(
                shape@,
                root_box(cfg.image_size as int, cfg.view, cfg.tile_sizes@[0] as int, px, py),
            ).lo >= 1 ==> img@[#[trigger] idx(cfg.image_size as int, px, py)] == 2u8,
{
    broadcast use lemma_idx_bounds;

    let pix = render_pixels(shape, cfg, true);
    let img = DebugRenderMode.image(&pix);
    proof {
        assert forall|px: int, py: int|
            0 <= px < cfg.image_size && 0 <= py < cfg.image_size implies img@[#[trigger] idx(
            cfg.image_size as int,
            px,
            py,
        )] == debug_of(
            tile_pix(
                shape@,
                cfg.tile_sizes@,
                0,
                cfg.image_size as int,
                cfg.view,
                (px / (cfg.tile_sizes@[0] as int)) * (cfg.tile_sizes@[0] as int),
                (py / (cfg.tile_sizes@[0] as int)) * (cfg.tile_sizes@[0] as int),
                px,
                py,
            ),
        ) by {
            lemma_idx_bounds(cfg.image_size as int, px, py);
            let w = pix@[idx(cfg.image_size as int, px, py)];
            assert(img@[idx(cfg.image_size as int, px, py)] == debug_of(w));
        }
        assert forall|px: int, py: int|
            0 <= px < cfg.image_size && 0 <= py < cfg.image_size && spec_interval(
                shape@,
                root_box(cfg.image_size as int, cfg.view, cfg.tile_sizes@[0] as int, px, py),
            ).hi <= 0 implies img@[#[trigger] idx(cfg.image_size as int, px, py)] == 1u8 by {
            lemma_idx_bounds(cfg.image_size as int, px, py);
            assert(root_fill(
                shape@,
                cfg.image_size as int,
                cfg.view,
                cfg.tile_sizes@[0] as int,
                px,
                py,
                pix@[idx(cfg.image_size as int, px, py)],
            ));
        }
        assert forall|px: int, py: int|
            0 <= px < cfg.image_size && 0 <= py < cfg.image_size && spec_interval(
                shape@,
                root_box(cfg.image_size as int, cfg.view, cfg.tile_sizes@[0] as int, px, py),
            ).lo >= 1 implies img@[#[trigger] idx(cfg.image_size as int, px, py)] == 2u8 by {
            lemma_idx_bounds(cfg.image_size as int, px, py);
            assert(root_fill(
                shape@,
                cfg.image_size as int,
                cfg.view,
                cfg.tile_sizes@[0] as int,
                px,
                py,
                pix@[idx(cfg.image_size as int, px, py)],
            ));
        }
    }
    img
}

/// Renders the distance-field view: every pixel is sampled individually
/// (no interval pruning), and its value feeds the color ramp.  The
/// image is pinned pointwise: each pixel is exactly the ramp color of
/// the shape's value at its center, whatever the tile sizes and
/// work-unit count.
pub fn render_sdf(shape: Shape, cfg: &ImageRenderConfig) -> (img: Vec<Rgb>)
    requires
        cfg.wf(),
    ensures
        img@.len() == cfg.image_size * cfg.image_size,
        forall|px: int, py: int|
            0 <= px < cfg.image_size && 0 <= py < cfg.image_size ==> img@[#[trigger] idx(
                cfg.image_size as int,
                px,
                py,
            )] == sdf_val(pixel_val(shape@, cfg.image_size as int, cfg.view, px, py)),
{
    broadcast use lemma_idx_bounds;

    let pix = render_pixels(shape, cfg, false);
    let img = SdfRenderMode.image(&pix);
    proof {
        assert forall|px: int, py: int|
            0 <= px < cfg.image_size && 0 <= py < cfg.image_size implies img@[#[trigger] idx(
            cfg.image_size as int,
            px,
            py,
        )] == sdf_val(pixel_val(shape@, cfg.image_size as int, cfg.view, px, py)) by {
            lemma_idx_bounds(cfg.image_size as int, px, py);
            let w = pix@[idx(cfg.image_size as int, px, py)];
            assert(w == sample_pix(
                shape@,
                cfg.image_size as int,
                cfg.view,
                px,
                py,
                cfg.tile_sizes@.len() - 1,
            ));
            crate::shape::lemma_eval_in_range(
                shape@,
                world_of(cfg.view.sx as int, cfg.view.ox as int, cfg.image_size as int, px),
                world_of(cfg.view.sy as int, cfg.view.oy as int, cfg.image_size as int, py),
                0,
            );
            assert(img@[idx(cfg.image_size as int, px, py)] == sdf_of(w));
        }
    }
    img
}

} // verus!
