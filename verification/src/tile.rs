use vstd::prelude::*;
use crate::error::Error;

verus! {

/// A tile-size list is well formed when it is non-empty, every entry is
/// positive, entries strictly descend, and each entry divides its
/// predecessor evenly.  The divisibility chain guarantees that a tile at
/// one level always contains a whole number of tiles at the next level,
/// so integer arithmetic suffices throughout the recursion.
pub open spec fn tile_sizes_ok(s: Seq<usize>) -> bool {
    &&& s.len() > 0
    &&& forall|i: int| 0 <= i < s.len() ==> #[trigger] s[i] as int > 0
    &&& forall|i: int|
        1 <= i < s.len() ==> s[i - 1] > #[trigger] s[i] && s[i - 1] as int % s[i] as int == 0
}

/// The pairs strictly before index `k` satisfy the tile-size chain rules.
pub open spec fn tile_prefix_ok(s: Seq<usize>, k: int) -> bool {
    forall|i: int|
        1 <= i < k ==> s[i - 1] > #[trigger] s[i] && s[i] > 0 && s[i - 1] as int % s[i] as int
            == 0
}

/// An ordered, checked list of tile edge lengths, largest first.
///
/// Construction goes through [`TileSizes::new`], which validates the list;
/// every value of this type therefore satisfies [`tile_sizes_ok`].
#[derive(Debug)]
pub struct TileSizes {
    sizes: Vec<usize>,
}

impl View for TileSizes {
    type V = Seq<usize>;

    closed spec fn view(&self) -> Seq<usize> {
        self.sizes@
    }
}

impl TileSizes {
    /// Every value of this type satisfies the checked invariants.
    #[verifier::type_invariant]
    pub open spec fn well_formed(self) -> bool {
        tile_sizes_ok(self@)
    }

    /// Builds a new tile-size list, checking the invariants.
    ///
    /// The scan reports the first violation from the left: an empty list,
    /// then for each adjacent pair a non-descending order, a zero entry,
    /// or a failed division.  A single zero entry has no predecessor and
    /// is reported as `BadTileSize(0, 0)`.
    pub fn new(sizes: &[usize]) -> (r: Result<TileSizes, Error>)
        ensures
            r matches Ok(t) ==> t@ == sizes@ && tile_sizes_ok(sizes@),
            r is Err ==> !tile_sizes_ok(sizes@),
            r matches Err(e) ==> match e {
                Error::EmptyTileSizes => sizes@.len() == 0,
                Error::BadTileOrder(a, b) => exists|i: int|
                    1 <= i < sizes@.len() && #[trigger] sizes@[i] == b && sizes@[i - 1] == a
                        && a <= b && tile_prefix_ok(sizes@, i),
                Error::BadTileSize(a, b) => (sizes@.len() == 1 && sizes@[0] == 0 && a == 0 && b
                    == 0) || (exists|i: int|
                    1 <= i < sizes@.len() && #[trigger] sizes@[i] == b && sizes@[i - 1] == a
                        && a > b && (b == 0 || a as int % b as int != 0) && tile_prefix_ok(
                        sizes@,
                        i,
                    )),
            },
    {
        if sizes.len() == 0 {
            return Err(Error::EmptyTileSizes);
        }
        let mut i: usize = 1;
        while i < sizes.len()
            invariant
                1 <= i <= sizes@.len(),
                tile_prefix_ok(sizes@, i as int),
            decreases sizes@.len() - i,
        {
            let prev = sizes[i - 1];
            let cur = sizes[i];
            if prev <= cur {
                return Err(Error::BadTileOrder(prev, cur));
            }
            if cur == 0 || prev % cur != 0 {
                return Err(Error::BadTileSize(prev, cur));
            }
            i = i + 1;
        }
        if sizes[0] == 0 {
            // A zero entry cannot divide anything; with more than one
            // entry the order check above already fired, so only the
            // singleton `[0]` reaches this point.
            proof {
                assert(sizes@.len() > 1 ==> sizes@[0] > sizes@[1]);
            }
            return Err(Error::BadTileSize(0, 0));
        }
        let mut v: Vec<usize> = Vec::new();
        let mut j: usize = 0;
        while j < sizes.len()
            invariant
                0 <= j <= sizes@.len(),
                v@ == sizes@.subrange(0, j as int),
            decreases sizes@.len() - j,
        {
            v.push(sizes[j]);
            j = j + 1;
        }
        proof {
            assert(v@ =~= sizes@);
        }
        Ok(TileSizes { sizes: v })
    }

    /// Returns the length of the tile list, which is always positive.
    pub fn len(&self) -> (n: usize)
        ensures
            n == self@.len(),
            n > 0,
    {
        proof {
            use_type_invariant(self);
        }
        self.sizes.len()
    }

    /// Returns the tile sizes (largest to smallest) as a slice.
    pub fn iter(&self) -> (r: &[usize])
        ensures
            r@ == self@,
    {
        self.sizes.as_slice()
    }

    /// Returns the last (smallest) tile size.
    pub fn last(&self) -> (n: usize)
        ensures
            n == self@[self@.len() - 1],
            n > 0,
    {
        proof {
            use_type_invariant(self);
        }
        self.sizes[self.sizes.len() - 1]
    }

    /// Gets a tile size by index, `None` past the end.
    pub fn get(&self, i: usize) -> (r: Option<usize>)
        ensures
            r == if i < self@.len() {
                Some(self@[i as int])
            } else {
                None::<usize>
            },
    {
        if i < self.sizes.len() {
            Some(self.sizes[i])
        } else {
            None
        }
    }

    /// Returns the data offset of a global pixel position within a root
    /// tile.  The root tile is implicit: it is set by the largest tile
    /// size and aligned to multiples of that size.
    pub fn pixel_offset(&self, x: usize, y: usize) -> (off: usize)
        requires
            self@[0] * self@[0] <= usize::MAX,
        ensures
            off == x as int % self@[0] as int + (y as int % self@[0] as int) * self@[0] as int,
            off < self@[0] * self@[0],
    {
        proof {
            use_type_invariant(self);
        }
        let s0 = self.sizes[0];
        let rx = x % s0;
        let ry = y % s0;
        proof {
            assert(rx < s0 && ry < s0);
            assert(ry * s0 <= (s0 - 1) * s0 && rx as int + (s0 - 1) * s0 < s0 * s0) by (
            nonlinear_arith)
                requires
                    rx < s0,
                    ry < s0,
                    0 < s0,
            ;
        }
        rx + ry * s0
    }
}

/// Hints for how to render a particular shape type.
pub trait RenderHints {
    /// Recommended tile sizes for 3D rendering.
    fn tile_sizes_3d() -> TileSizes;

    /// Recommended tile sizes for 2D rendering.
    fn tile_sizes_2d() -> TileSizes;

    /// Whether to run tape simplification at the given cell depth during
    /// meshing.  True by default; an implementation whose simplification
    /// costs more than it saves may restrict it to certain depths.
    fn simplify_tree_during_meshing(_d: usize) -> bool {
        true
    }
}

} // verus!
