//! Boundary-tracing renderer for Newton-fractal escape-time tiles.
//!
//! The renderer produces, for each pixel of a rectangular tile, the number of
//! damped-Newton iterations needed before the iterate converges or diverges.
//! Instead of evaluating the (expensive) escape-time function at every pixel,
//! it computes exact values along the tile's outer ring, traces basin
//! boundaries inward from the discontinuities found there, and reconstructs
//! the flat interior regions by a cheap carry-forward fill.
//!
//! The escape-time function itself is supplied by the caller through the
//! [`eval::Evaluator`] capability trait; any pure pixel-to-count mapping
//! (a compiled formula, a lookup table) is interchangeable.

pub mod eval;
pub mod geometry;
pub mod laws;
pub mod model;
pub mod tile;

pub use eval::Evaluator;
pub use eval::TableEval;
pub use geometry::Coordinates;
pub use tile::CalcInfo;
pub use tile::calc_rect;
