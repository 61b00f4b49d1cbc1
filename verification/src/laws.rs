//! The renderer's cross-cutting guarantees, stated and proved once over
//! the model in [`crate::model`].
//!
//! Together with the contract of [`crate::tile::calc_rect`] — whose output
//! equals [`crate::model::render`] applied to the request's dimensions and
//! evaluator values — these pin down determinism, exactness on degenerate
//! tiles, and the filler's share of boundary completeness.

use vstd::prelude::*;

use crate::eval::Evaluator;
use crate::model::UNCALCULATED;
use crate::model::in_tile;
use crate::model::lemma_fill_rows_char;
use crate::model::lemma_lin_bounds;
use crate::model::lemma_render_props;
use crate::model::lin;
use crate::model::on_ring;
use crate::model::render;
use crate::model::traced;
use crate::tile::CalcInfo;

verus! {

/// Law: the renderer is deterministic. Two requests for a tile of the same
/// origin and extent, whose evaluators agree on every pixel, produce the
/// same output sequence. In particular, since `calc_rect` returns exactly
/// `render(width, height, vals)`, two calls on one request return
/// bit-identical sequences.
pub proof fn lemma_render_deterministic<E1: Evaluator, E2: Evaluator>(
    a: CalcInfo<E1>,
    b: CalcInfo<E2>,
)
    requires
        a.start == b.start,
        a.rect == b.rect,
        forall|x: int, y: int| a.eval.val(x, y) == b.eval.val(x, y),
    ensures
        render(a.width(), a.height(), a.vals()) == render(b.width(), b.height(), b.vals()),
{
    assert(a.vals() =~= b.vals()) by {
        assert forall|i: int| 0 <= i < a.vals().len() implies a.vals()[i] == b.vals()[i] by {
            assert(a.eval.val(a.start.x + i % a.width(), a.start.y + i / a.width()) == b.eval.val(
                b.start.x + i % b.width(),
                b.start.y + i / b.width(),
            ));
        }
    }
}

/// Law: a tile one pixel wide or one pixel tall has no interior, so every
/// cell of its output is the evaluator's exact value for that pixel — no
/// fill-derived value appears.
pub proof fn lemma_degenerate_exact(w: int, h: int, vals: Seq<u16>)
    requires
        1 <= w <= u32::MAX,
        1 <= h <= u32::MAX,
        vals.len() == w * h,
        w == 1 || h == 1,
    ensures
        forall|x: int, y: int|
            #![trigger lin(w, x, y)]
            in_tile(w, h, x, y) ==> render(w, h, vals)[lin(w, x, y)] == vals[lin(w, x, y)],
{
    lemma_render_props(w, h, vals);
    assert forall|x: int, y: int|
        #![trigger lin(w, x, y)]
        in_tile(w, h, x, y) implies render(w, h, vals)[lin(w, x, y)] == vals[lin(w, x, y)] by {
        assert(on_ring(w, h, x, y));
    }
}

/// Law (the filler's share of boundary completeness): two horizontally
/// adjacent interior cells that the seeder and tracer both left unresolved
/// receive one and the same carried value from the interior filler. Read in
/// the contrapositive: where two such neighbors differ in the output, at
/// least one of them was resolved by direct evaluation.
pub proof fn lemma_fill_pair_agrees(w: int, h: int, vals: Seq<u16>, x: int, y: int)
    requires
        1 <= w <= u32::MAX,
        1 <= h <= u32::MAX,
        vals.len() == w * h,
        1 <= y < h - 1,
        1 <= x,
        x + 1 < w - 1,
        traced(w, h, vals).grid[lin(w, x, y)] == UNCALCULATED,
        traced(w, h, vals).grid[lin(w, x + 1, y)] == UNCALCULATED,
    ensures
        render(w, h, vals)[lin(w, x, y)] == render(w, h, vals)[lin(w, x + 1, y)],
{
    let gt = traced(w, h, vals).grid;
    lemma_render_props(w, h, vals);
    lemma_fill_rows_char(gt, w, h, 1);
    lemma_lin_bounds(w, h, x, y);
    lemma_lin_bounds(w, h, x + 1, y);
}

} // verus!
