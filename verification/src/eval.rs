//! The escape-time evaluator, as a capability interface.
//!
//! The renderer never computes escape times itself: callers hand it a value
//! whose `eval` method maps an absolute pixel coordinate to an iteration
//! count. A compiled formula with its derivative, a hard-coded function, or a
//! lookup table all fit behind the same interface.

use vstd::prelude::*;

verus! {

/// A pure mapping from an absolute pixel coordinate to an escape-time count.
///
/// The result of `eval` is pinned to the specification-level function `val`,
/// so the evaluator is deterministic by contract: two calls on the same
/// coordinate return the same count, and the renderer's output is a function
/// of `val` alone.
pub trait Evaluator {
    /// The iteration count this evaluator assigns to pixel `(x, y)`.
    /// Verified implementations override this with their own definition;
    /// the default stands for implementations outside the proofs' reach,
    /// about which nothing is known.
    open spec fn val(&self, x: int, y: int) -> u16 {
        arbitrary()
    }

    /// Compute the count for pixel `(x, y)`.
    fn eval(&self, x: i64, y: i64) -> (r: u16)
        ensures
            r == self.val(x as int, y as int),
    ;
}

/// An evaluator backed by a rectangular table of precomputed counts:
/// pixel `(x, y)` inside the table maps to `cells[y*width + x]`, every other
/// pixel to `outside`. Incoherent dimensions (a `cells` vector of the wrong
/// length) also map every pixel to `outside`.
pub struct TableEval {
    pub width: u16,
    pub height: u16,
    pub cells: Vec<u16>,
    pub outside: u16,
}

impl Evaluator for TableEval {
    open spec fn val(&self, x: int, y: int) -> u16 {
        if self.cells@.len() == self.width * self.height && 0 <= x < self.width && 0 <= y
            < self.height {
            self.cells@[y * self.width + x]
        } else {
            self.outside
        }
    }

    fn eval(&self, x: i64, y: i64) -> (r: u16) {
        let w = self.width as usize;
        let h = self.height as usize;
        proof {
            assert(w * h <= 0xffff * 0xffff) by (nonlinear_arith)
                requires
                    w <= 0xffff,
                    h <= 0xffff,
            ;
        }
        if self.cells.len() == w * h && 0 <= x && x < w as i64 && 0 <= y && y < h as i64 {
            proof {
                assert(0 <= y * w + x < w * h) by (nonlinear_arith)
                    requires
                        0 <= x < w,
                        0 <= y < h,
                ;
            }
            let i = (y as usize) * w + (x as usize);
            self.cells[i]
        } else {
            self.outside
        }
    }
}

} // verus!
