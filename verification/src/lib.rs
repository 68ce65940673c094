//! Hierarchical tile-based rendering of implicit surfaces.
//!
//! An implicit surface is given by a scalar function `f(x, y[, z])` whose
//! sign separates "inside" from "outside".  Rendering walks a hierarchy of
//! tiles: interval arithmetic over a tile's bounding box can prove a whole
//! tile inside or outside, and a trace of sign-decided choices lets the
//! expression be simplified before descending into sub-tiles.  At the
//! finest level the remaining pixels are evaluated one by one.
//!
//! Scalars are exact 64-bit integers with clamped (saturating) arithmetic,
//! so every contract here is stated and proved over plain integer
//! mathematics; shapes are written in whatever fixed scale the caller
//! picks, and only the sign of the result matters.

pub mod config;
pub mod error;
pub mod handle;
pub mod interval;
pub mod render2d;
pub mod render3d;
pub mod shape;
pub mod tile;
