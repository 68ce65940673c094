use vstd::prelude::*;

verus! {

/// Errors raised by the rendering core.
///
/// Invalid tile-size lists are rejected up front, at construction; the
/// pipeline itself is total on well-formed inputs and raises nothing
/// mid-render.
#[derive(Debug, Clone, Copy, PartialEq, Eq, Structural)]
pub enum Error {
    /// The tile-size list was empty.
    EmptyTileSizes,
    /// Two adjacent tile sizes were not strictly descending; the pair is
    /// `(predecessor, successor)`.
    BadTileOrder(usize, usize),
    /// A tile size did not evenly divide its predecessor; the pair is
    /// `(predecessor, successor)`.  A zero tile size is reported here too,
    /// since zero can never divide anything.
    BadTileSize(usize, usize),
}

} // verus!
