//! Mathematical model of the boundary-tracing renderer.
//!
//! Every step of the executable pipeline — edge seeding, frontier tracing,
//! interior filling, and the final narrowing of the grid — is mirrored here
//! by a total specification function over sequences. The executable code in
//! [`crate::tile`] proves that it transforms its buffers exactly as these
//! functions say, so the whole output of a tile render is pinned to
//! [`render`], a deterministic function of the tile size and the per-pixel
//! evaluator values.

use vstd::prelude::*;

use crate::eval::Evaluator;
use crate::geometry::Coordinates;
use crate::geometry::direction;

verus! {

/// Sentinel stored in grid cells that have not been resolved yet. It lies
/// outside `u16`, so it can never collide with an escape-time count.
pub const UNCALCULATED: u32 = 0x1_0000;

/// Row-major linear index of cell `(x, y)` in a grid `w` cells wide.
pub open spec fn lin(w: int, x: int, y: int) -> int {
    y * w + x
}

/// Whether `(x, y)` lies inside a `w` by `h` tile.
pub open spec fn in_tile(w: int, h: int, x: int, y: int) -> bool {
    0 <= x < w && 0 <= y < h
}

/// Whether `(x, y)` lies on the tile's outer ring: the top or bottom row or
/// the left or right column.
pub open spec fn on_ring(w: int, h: int, x: int, y: int) -> bool {
    x == 0 || x == w - 1 || y == 0 || y == h - 1
}

/// The per-pixel evaluator values of a tile with origin `start`, laid out
/// row-major: entry `lin(w, x, y)` is the count at absolute pixel
/// `(start.x + x, start.y + y)`.
pub open spec fn tile_vals<E: Evaluator>(e: E, start: Coordinates, w: int, h: int) -> Seq<u16> {
    Seq::new((w * h) as nat, |i: int| e.val(start.x + i % w, start.y + i / w))
}

/// The state shared by the edge seeder and the frontier tracer: the grid of
/// (possibly unresolved) cells, the queued-flag per cell, and the work queue.
pub struct TraceState {
    pub grid: Seq<u32>,
    pub pushed: Seq<bool>,
    pub queue: Seq<Coordinates>,
}

/// Well-formedness of a trace state for a `w` by `h` tile: the dimensions
/// are those of a real tile, both per-cell sequences cover the tile, and
/// everything on the queue is a tile cell.
pub open spec fn state_wf(s: TraceState, w: int, h: int) -> bool {
    &&& 1 <= w <= u32::MAX
    &&& 1 <= h <= u32::MAX
    &&& s.grid.len() == w * h
    &&& s.pushed.len() == w * h
    &&& forall|i: int|
        0 <= i < s.queue.len() ==> in_tile(
            w,
            h,
            (#[trigger] s.queue[i]).x as int,
            s.queue[i].y as int,
        )
}

/// Resolve cell `(x, y)`: store its exact evaluator value in the grid.
pub open spec fn store(s: TraceState, w: int, vals: Seq<u16>, x: int, y: int) -> TraceState {
    TraceState { grid: s.grid.update(lin(w, x, y), vals[lin(w, x, y)] as u32), ..s }
}

/// Queue cell `(x, y)` unless it has ever been queued before; the flag
/// guarantees that each cell enters the queue at most once.
pub open spec fn mark_and_push(s: TraceState, w: int, x: int, y: int) -> TraceState {
    if s.pushed[lin(w, x, y)] {
        s
    } else {
        TraceState {
            pushed: s.pushed.update(lin(w, x, y), true),
            queue: s.queue.push(Coordinates { x: x as i64, y: y as i64 }),
            ..s
        }
    }
}

/// One step of the seeder's horizontal pass at column `i`: resolve the cells
/// `(i, 0)` and `(i, h-1)` and queue each one that differs from its
/// horizontal predecessor.
pub open spec fn seed_row_step(s: TraceState, w: int, h: int, vals: Seq<u16>, i: int) -> TraceState {
    let s1 = store(s, w, vals, i, 0);
    let s2 = if s1.grid[lin(w, i, 0)] != s1.grid[lin(w, i - 1, 0)] {
        mark_and_push(s1, w, i, 0)
    } else {
        s1
    };
    let s3 = store(s2, w, vals, i, h - 1);
    if s3.grid[lin(w, i, h - 1)] != s3.grid[lin(w, i - 1, h - 1)] {
        mark_and_push(s3, w, i, h - 1)
    } else {
        s3
    }
}

/// The seeder's horizontal pass from column `i` to the right edge.
pub open spec fn seed_rows(s: TraceState, w: int, h: int, vals: Seq<u16>, i: int) -> TraceState
    decreases w - i,
{
    if 1 <= i < w {
        seed_rows(seed_row_step(s, w, h, vals, i), w, h, vals, i + 1)
    } else {
        s
    }
}

/// One step of the seeder's vertical pass at row `j`: resolve the cells
/// `(0, j)` and `(w-1, j)` and queue each one that differs from the cell one
/// row above it.
pub open spec fn seed_col_step(s: TraceState, w: int, h: int, vals: Seq<u16>, j: int) -> TraceState {
    let s1 = store(s, w, vals, 0, j);
    let s2 = if s1.grid[lin(w, 0, j)] != s1.grid[lin(w, 0, j - 1)] {
        mark_and_push(s1, w, 0, j)
    } else {
        s1
    };
    let s3 = store(s2, w, vals, w - 1, j);
    if s3.grid[lin(w, w - 1, j)] != s3.grid[lin(w, w - 1, j - 1)] {
        mark_and_push(s3, w, w - 1, j)
    } else {
        s3
    }
}

/// The seeder's vertical pass from row `j` down to the row above the bottom
/// edge (the top and bottom rows are handled by the horizontal pass).
pub open spec fn seed_cols(s: TraceState, w: int, h: int, vals: Seq<u16>, j: int) -> TraceState
    decreases h - 1 - j,
{
    if 1 <= j < h - 1 {
        seed_cols(seed_col_step(s, w, h, vals, j), w, h, vals, j + 1)
    } else {
        s
    }
}

/// The whole edge seeder: resolve the two left corners, then run the
/// horizontal and vertical passes over the ring.
pub open spec fn seed(s: TraceState, w: int, h: int, vals: Seq<u16>) -> TraceState {
    let s0 = store(store(s, w, vals, 0, 0), w, vals, 0, h - 1);
    seed_cols(seed_rows(s0, w, h, vals, 1), w, h, vals, 1)
}

/// The tracer's visit of one neighbor of the popped cell `popped`, in
/// direction `k`: if the neighbor is a tile cell, resolve it when it is
/// still unresolved, then queue it when its value differs from the popped
/// cell's value.
pub open spec fn visit(
    s: TraceState,
    w: int,
    h: int,
    vals: Seq<u16>,
    popped: Coordinates,
    k: int,
) -> TraceState {
    let t = popped.plus(direction(k));
    if !in_tile(w, h, t.x as int, t.y as int) {
        s
    } else {
        let tx: int = t.x as int;
        let ty: int = t.y as int;
        let s1 = if s.grid[lin(w, tx, ty)] == UNCALCULATED {
            store(s, w, vals, tx, ty)
        } else {
            s
        };
        if s1.grid[lin(w, tx, ty)] != s1.grid[lin(w, popped.x as int, popped.y as int)] {
            mark_and_push(s1, w, tx, ty)
        } else {
            s1
        }
    }
}

/// Visit the popped cell's neighbors in directions `k .. 8`.
pub open spec fn visit_all(
    s: TraceState,
    w: int,
    h: int,
    vals: Seq<u16>,
    popped: Coordinates,
    k: int,
) -> TraceState
    decreases 8 - k,
{
    if 0 <= k < 8 {
        visit_all(visit(s, w, h, vals, popped, k), w, h, vals, popped, k + 1)
    } else {
        s
    }
}

/// Number of cells that have never been queued.
pub open spec fn unpushed(p: Seq<bool>) -> nat
    decreases p.len(),
{
    if p.len() == 0 {
        0
    } else {
        unpushed(p.drop_last()) + if p.last() {
            0nat
        } else {
            1nat
        }
    }
}

/// Termination measure of the tracer: every iteration pops one queue entry
/// and flips one never-queued flag per entry it pushes.
pub open spec fn state_measure(s: TraceState) -> int {
    s.queue.len() + 2 * unpushed(s.pushed) as int
}

/// The whole frontier tracer: pop the most recently queued cell and visit
/// its eight neighbors, until the queue is empty.
pub open spec fn trace(s: TraceState, w: int, h: int, vals: Seq<u16>) -> TraceState
    decreases state_measure(s),
{
    if !state_wf(s, w, h) || s.queue.len() == 0 {
        s
    } else {
        let popped = s.queue.last();
        let s1 = TraceState { queue: s.queue.drop_last(), ..s };
        proof {
            lemma_visit_all_measure(s1, w, h, vals, popped, 0);
        }
        trace(visit_all(s1, w, h, vals, popped, 0), w, h, vals)
    }
}

/// The interior filler's scan of row `y` from column `x` on, carrying the
/// value `carry` of the nearest resolved cell to the left: an unresolved
/// cell takes the carry, a resolved cell replaces it.
pub open spec fn fill_row(g: Seq<u32>, w: int, y: int, x: int, carry: u32) -> Seq<u32>
    decreases w - 1 - x,
{
    if 1 <= x < w - 1 {
        if g[lin(w, x, y)] == UNCALCULATED {
            fill_row(g.update(lin(w, x, y), carry), w, y, x + 1, carry)
        } else {
            fill_row(g, w, y, x + 1, g[lin(w, x, y)])
        }
    } else {
        g
    }
}

/// The interior filler from row `y` down: each interior row is scanned left
/// to right, starting the carry at the row's left ring cell.
pub open spec fn fill_rows(g: Seq<u32>, w: int, h: int, y: int) -> Seq<u32>
    decreases h - 1 - y,
{
    if 1 <= y < h - 1 {
        fill_rows(fill_row(g, w, y, 1, g[lin(w, 0, y)]), w, h, y + 1)
    } else {
        g
    }
}

/// The whole interior filler.
pub open spec fn fill(g: Seq<u32>, w: int, h: int) -> Seq<u32> {
    fill_rows(g, w, h, 1)
}

/// Narrow the working grid to the output element type. Exact on every fully
/// rendered grid, where no sentinel remains.
pub open spec fn finish(g: Seq<u32>) -> Seq<u16> {
    Seq::new(g.len(), |i: int| g[i] as u16)
}

/// The fresh working state of a tile render: all cells unresolved, no cell
/// queued, empty queue.
pub open spec fn initial_state(w: int, h: int) -> TraceState {
    TraceState {
        grid: Seq::new((w * h) as nat, |i: int| UNCALCULATED),
        pushed: Seq::new((w * h) as nat, |i: int| false),
        queue: Seq::empty(),
    }
}

/// The state after seeding and tracing a fresh `w` by `h` tile: the cells
/// this state has resolved are exactly the ones the renderer computed by
/// direct evaluation; the fill phase reconstructs all others.
pub open spec fn traced(w: int, h: int, vals: Seq<u16>) -> TraceState {
    trace(seed(initial_state(w, h), w, h, vals), w, h, vals)
}

/// The complete renderer pipeline on a `w` by `h` tile with per-pixel
/// values `vals`: seed the ring, trace the frontier, fill the interior,
/// narrow the grid. The executable renderer returns exactly this sequence.
pub open spec fn render(w: int, h: int, vals: Seq<u16>) -> Seq<u16> {
    finish(fill(traced(w, h, vals).grid, w, h))
}

/// A tile cell's linear index lies inside the grid.
pub proof fn lemma_lin_bounds(w: int, h: int, x: int, y: int)
    requires
        in_tile(w, h, x, y),
    ensures
        0 <= lin(w, x, y) < w * h,
{
    assert(0 <= y * w + x < w * h) by (nonlinear_arith)
        requires
            0 <= x < w,
            0 <= y < h,
    ;
}

/// Distinct tile cells have distinct linear indices.
pub proof fn lemma_lin_distinct(w: int, h: int, x1: int, y1: int, x2: int, y2: int)
    requires
        in_tile(w, h, x1, y1),
        in_tile(w, h, x2, y2),
        x1 != x2 || y1 != y2,
    ensures
        lin(w, x1, y1) != lin(w, x2, y2),
{
    assert(y1 * w + x1 != y2 * w + x2) by (nonlinear_arith)
        requires
            0 <= x1 < w,
            0 <= x2 < w,
            0 <= y1 < h,
            0 <= y2 < h,
            x1 != x2 || y1 != y2,
    ;
}

/// Reading `tile_vals` at a cell's linear index gives the evaluator's value
/// at the corresponding absolute pixel.
pub proof fn lemma_tile_vals_at<E: Evaluator>(
    e: E,
    start: Coordinates,
    w: int,
    h: int,
    x: int,
    y: int,
)
    requires
        in_tile(w, h, x, y),
    ensures
        tile_vals(e, start, w, h)[lin(w, x, y)] == e.val(start.x + x, start.y + y),
{
    lemma_lin_bounds(w, h, x, y);
    vstd::arithmetic::div_mod::lemma_fundamental_div_mod_converse(lin(w, x, y), w, y, x);
}

/// Flipping one never-queued flag decreases the count of never-queued cells.
proof fn lemma_unpushed_update(p: Seq<bool>, i: int)
    requires
        0 <= i < p.len(),
        !p[i],
    ensures
        unpushed(p.update(i, true)) == unpushed(p) - 1,
    decreases p.len(),
{
    let q = p.update(i, true);
    if i == p.len() - 1 {
        assert(q.drop_last() =~= p.drop_last());
    } else {
        assert(q.drop_last() =~= p.drop_last().update(i, true));
        lemma_unpushed_update(p.drop_last(), i);
    }
}

/// Queuing a tile cell preserves well-formedness and never increases the
/// measure.
proof fn lemma_mark_measure(s: TraceState, w: int, h: int, x: int, y: int)
    requires
        state_wf(s, w, h),
        in_tile(w, h, x, y),
    ensures
        state_wf(mark_and_push(s, w, x, y), w, h),
        state_measure(mark_and_push(s, w, x, y)) <= state_measure(s),
{
    lemma_lin_bounds(w, h, x, y);
    if !s.pushed[lin(w, x, y)] {
        lemma_unpushed_update(s.pushed, lin(w, x, y));
    }
}

/// One neighbor visit preserves well-formedness and never increases the
/// measure.
proof fn lemma_visit_measure(
    s: TraceState,
    w: int,
    h: int,
    vals: Seq<u16>,
    popped: Coordinates,
    k: int,
)
    requires
        state_wf(s, w, h),
    ensures
        state_wf(visit(s, w, h, vals, popped, k), w, h),
        state_measure(visit(s, w, h, vals, popped, k)) <= state_measure(s),
{
    let t = popped.plus(direction(k));
    if in_tile(w, h, t.x as int, t.y as int) {
        let tx: int = t.x as int;
        let ty: int = t.y as int;
        lemma_lin_bounds(w, h, tx, ty);
        let s1 = if s.grid[lin(w, tx, ty)] == UNCALCULATED {
            store(s, w, vals, tx, ty)
        } else {
            s
        };
        assert(state_wf(s1, w, h));
        assert(state_measure(s1) == state_measure(s));
        if s1.grid[lin(w, tx, ty)] != s1.grid[lin(w, popped.x as int, popped.y as int)] {
            lemma_mark_measure(s1, w, h, tx, ty);
        }
    }
}

/// A full eight-neighbor visit preserves well-formedness and never increases
/// the measure.
pub proof fn lemma_visit_all_measure(
    s: TraceState,
    w: int,
    h: int,
    vals: Seq<u16>,
    popped: Coordinates,
    k: int,
)
    requires
        state_wf(s, w, h),
    ensures
        state_wf(visit_all(s, w, h, vals, popped, k), w, h),
        state_measure(visit_all(s, w, h, vals, popped, k)) <= state_measure(s),
    decreases 8 - k,
{
    if 0 <= k < 8 {
        lemma_visit_measure(s, w, h, vals, popped, k);
        lemma_visit_all_measure(visit(s, w, h, vals, popped, k), w, h, vals, popped, k + 1);
    }
}

/// Every resolved cell holds exactly its evaluator value; the rest still
/// hold the sentinel. This is the seeder's and tracer's central invariant.
pub open spec fn cells_ok(g: Seq<u32>, vals: Seq<u16>) -> bool {
    forall|i: int|
        0 <= i < g.len() ==> (#[trigger] g[i]) == UNCALCULATED || g[i] == vals[i] as u32
}

/// How the grid may change while seeding and tracing: a cell either keeps
/// its value, or moves from the sentinel to its exact evaluator value. In
/// particular a resolved cell is never overwritten with anything else.
pub open spec fn evolves(g1: Seq<u32>, g2: Seq<u32>, vals: Seq<u16>) -> bool {
    &&& g1.len() == g2.len()
    &&& forall|i: int|
        0 <= i < g1.len() ==> (#[trigger] g2[i]) == g1[i] || (g1[i] == UNCALCULATED && g2[i]
            == vals[i] as u32)
}

/// Every ring cell has been resolved.
pub open spec fn ring_done(g: Seq<u32>, w: int, h: int) -> bool {
    forall|x: int, y: int|
        #![trigger lin(w, x, y)]
        in_tile(w, h, x, y) && on_ring(w, h, x, y) ==> g[lin(w, x, y)] != UNCALCULATED
}

/// Resolving a cell preserves the central invariant and is a legal grid
/// evolution; the resolved cell is no longer the sentinel.
proof fn lemma_store_props(s: TraceState, w: int, h: int, vals: Seq<u16>, x: int, y: int)
    requires
        s.grid.len() == w * h,
        cells_ok(s.grid, vals),
        in_tile(w, h, x, y),
    ensures
        cells_ok(store(s, w, vals, x, y).grid, vals),
        evolves(s.grid, store(s, w, vals, x, y).grid, vals),
        store(s, w, vals, x, y).grid.len() == s.grid.len(),
        store(s, w, vals, x, y).grid[lin(w, x, y)] != UNCALCULATED,
        store(s, w, vals, x, y).pushed == s.pushed,
        store(s, w, vals, x, y).queue == s.queue,
{
    lemma_lin_bounds(w, h, x, y);
    assert(vals[lin(w, x, y)] as u32 != UNCALCULATED);
}

/// Grid evolution is transitive.
proof fn lemma_evolves_trans(g1: Seq<u32>, g2: Seq<u32>, g3: Seq<u32>, vals: Seq<u16>)
    requires
        evolves(g1, g2, vals),
        evolves(g2, g3, vals),
    ensures
        evolves(g1, g3, vals),
{
}

/// One step of the seeder's horizontal pass keeps the state well formed and
/// the grid invariant, evolves the grid, and leaves the two visited ring
/// cells resolved.
proof fn lemma_seed_row_step_props(s: TraceState, w: int, h: int, vals: Seq<u16>, i: int)
    requires
        state_wf(s, w, h),
        cells_ok(s.grid, vals),
        1 <= i < w,
    ensures
        state_wf(seed_row_step(s, w, h, vals, i), w, h),
        cells_ok(seed_row_step(s, w, h, vals, i).grid, vals),
        evolves(s.grid, seed_row_step(s, w, h, vals, i).grid, vals),
        seed_row_step(s, w, h, vals, i).grid[lin(w, i, 0)] != UNCALCULATED,
        seed_row_step(s, w, h, vals, i).grid[lin(w, i, h - 1)] != UNCALCULATED,
{
    let s1 = store(s, w, vals, i, 0);
    lemma_store_props(s, w, h, vals, i, 0);
    let s2 = if s1.grid[lin(w, i, 0)] != s1.grid[lin(w, i - 1, 0)] {
        lemma_mark_measure(s1, w, h, i, 0);
        mark_and_push(s1, w, i, 0)
    } else {
        s1
    };
    let s3 = store(s2, w, vals, i, h - 1);
    lemma_store_props(s2, w, h, vals, i, h - 1);
    lemma_evolves_trans(s.grid, s2.grid, s3.grid, vals);
    let s4 = if s3.grid[lin(w, i, h - 1)] != s3.grid[lin(w, i - 1, h - 1)] {
        lemma_mark_measure(s3, w, h, i, h - 1);
        mark_and_push(s3, w, i, h - 1)
    } else {
        s3
    };
    lemma_lin_bounds(w, h, i, 0);
    lemma_lin_bounds(w, h, i, h - 1);
    if h - 1 != 0 {
        lemma_lin_distinct(w, h, i, 0, i, h - 1);
        assert(s3.grid[lin(w, i, 0)] == s1.grid[lin(w, i, 0)]);
    }
}

/// The seeder's horizontal pass from column `i` on: invariants are kept,
/// the grid evolves, and every visited ring cell comes out resolved.
proof fn lemma_seed_rows_props(s: TraceState, w: int, h: int, vals: Seq<u16>, i: int)
    requires
        state_wf(s, w, h),
        cells_ok(s.grid, vals),
        1 <= i,
    ensures
        state_wf(seed_rows(s, w, h, vals, i), w, h),
        cells_ok(seed_rows(s, w, h, vals, i).grid, vals),
        evolves(s.grid, seed_rows(s, w, h, vals, i).grid, vals),
        forall|x: int|
            #![trigger lin(w, x, 0)]
            #![trigger lin(w, x, h - 1)]
            i <= x < w ==> seed_rows(s, w, h, vals, i).grid[lin(w, x, 0)] != UNCALCULATED
                && seed_rows(s, w, h, vals, i).grid[lin(w, x, h - 1)] != UNCALCULATED,
    decreases w - i,
{
    if 1 <= i < w {
        lemma_seed_row_step_props(s, w, h, vals, i);
        let s1 = seed_row_step(s, w, h, vals, i);
        lemma_seed_rows_props(s1, w, h, vals, i + 1);
        lemma_evolves_trans(s.grid, s1.grid, seed_rows(s1, w, h, vals, i + 1).grid, vals);
        lemma_lin_bounds(w, h, i, 0);
        lemma_lin_bounds(w, h, i, h - 1);
    }
}

/// One step of the seeder's vertical pass, as for the horizontal pass.
proof fn lemma_seed_col_step_props(s: TraceState, w: int, h: int, vals: Seq<u16>, j: int)
    requires
        state_wf(s, w, h),
        cells_ok(s.grid, vals),
        1 <= j < h - 1,
    ensures
        state_wf(seed_col_step(s, w, h, vals, j), w, h),
        cells_ok(seed_col_step(s, w, h, vals, j).grid, vals),
        evolves(s.grid, seed_col_step(s, w, h, vals, j).grid, vals),
        seed_col_step(s, w, h, vals, j).grid[lin(w, 0, j)] != UNCALCULATED,
        seed_col_step(s, w, h, vals, j).grid[lin(w, w - 1, j)] != UNCALCULATED,
{
    let s1 = store(s, w, vals, 0, j);
    lemma_store_props(s, w, h, vals, 0, j);
    let s2 = if s1.grid[lin(w, 0, j)] != s1.grid[lin(w, 0, j - 1)] {
        lemma_mark_measure(s1, w, h, 0, j);
        mark_and_push(s1, w, 0, j)
    } else {
        s1
    };
    let s3 = store(s2, w, vals, w - 1, j);
    lemma_store_props(s2, w, h, vals, w - 1, j);
    lemma_evolves_trans(s.grid, s2.grid, s3.grid, vals);
    let s4 = if s3.grid[lin(w, w - 1, j)] != s3.grid[lin(w, w - 1, j - 1)] {
        lemma_mark_measure(s3, w, h, w - 1, j);
        mark_and_push(s3, w, w - 1, j)
    } else {
        s3
    };
    lemma_lin_bounds(w, h, 0, j);
    lemma_lin_bounds(w, h, w - 1, j);
    if w - 1 != 0 {
        lemma_lin_distinct(w, h, 0, j, w - 1, j);
        assert(s3.grid[lin(w, 0, j)] == s1.grid[lin(w, 0, j)]);
    }
}

/// The seeder's vertical pass from row `j` on.
proof fn lemma_seed_cols_props(s: TraceState, w: int, h: int, vals: Seq<u16>, j: int)
    requires
        state_wf(s, w, h),
        cells_ok(s.grid, vals),
        1 <= j,
    ensures
        state_wf(seed_cols(s, w, h, vals, j), w, h),
        cells_ok(seed_cols(s, w, h, vals, j).grid, vals),
        evolves(s.grid, seed_cols(s, w, h, vals, j).grid, vals),
        forall|y: int|
            #![trigger lin(w, 0, y)]
            #![trigger lin(w, w - 1, y)]
            j <= y < h - 1 ==> seed_cols(s, w, h, vals, j).grid[lin(w, 0, y)] != UNCALCULATED
                && seed_cols(s, w, h, vals, j).grid[lin(w, w - 1, y)] != UNCALCULATED,
    decreases h - 1 - j,
{
    if 1 <= j < h - 1 {
        lemma_seed_col_step_props(s, w, h, vals, j);
        let s1 = seed_col_step(s, w, h, vals, j);
        lemma_seed_cols_props(s1, w, h, vals, j + 1);
        lemma_evolves_trans(s.grid, s1.grid, seed_cols(s1, w, h, vals, j + 1).grid, vals);
        lemma_lin_bounds(w, h, 0, j);
        lemma_lin_bounds(w, h, w - 1, j);
    }
}

/// The whole edge seeder keeps the state well formed and the grid
/// invariant, evolves the grid, and resolves the whole ring.
pub proof fn lemma_seed_props(s: TraceState, w: int, h: int, vals: Seq<u16>)
    requires
        state_wf(s, w, h),
        cells_ok(s.grid, vals),
    ensures
        state_wf(seed(s, w, h, vals), w, h),
        cells_ok(seed(s, w, h, vals).grid, vals),
        evolves(s.grid, seed(s, w, h, vals).grid, vals),
        ring_done(seed(s, w, h, vals).grid, w, h),
{
    let sa = store(s, w, vals, 0, 0);
    lemma_store_props(s, w, h, vals, 0, 0);
    let s0 = store(sa, w, vals, 0, h - 1);
    lemma_store_props(sa, w, h, vals, 0, h - 1);
    lemma_evolves_trans(s.grid, sa.grid, s0.grid, vals);
    lemma_lin_bounds(w, h, 0, 0);
    lemma_lin_bounds(w, h, 0, h - 1);
    if h - 1 != 0 {
        lemma_lin_distinct(w, h, 0, 0, 0, h - 1);
        assert(s0.grid[lin(w, 0, 0)] == sa.grid[lin(w, 0, 0)]);
    }
    let s1 = seed_rows(s0, w, h, vals, 1);
    lemma_seed_rows_props(s0, w, h, vals, 1);
    lemma_evolves_trans(s.grid, s0.grid, s1.grid, vals);
    let s2 = seed_cols(s1, w, h, vals, 1);
    lemma_seed_cols_props(s1, w, h, vals, 1);
    lemma_evolves_trans(s.grid, s1.grid, s2.grid, vals);
    assert forall|x: int, y: int|
        #![trigger lin(w, x, y)]
        in_tile(w, h, x, y) && on_ring(w, h, x, y) implies s2.grid[lin(w, x, y)] != UNCALCULATED by {
        lemma_lin_bounds(w, h, x, y);
        if y == 0 || y == h - 1 {
            if x == 0 {
                assert(s0.grid[lin(w, 0, 0)] != UNCALCULATED);
                assert(s0.grid[lin(w, 0, h - 1)] != UNCALCULATED);
                assert(s1.grid[lin(w, x, y)] != UNCALCULATED);
            } else {
                assert(s1.grid[lin(w, x, 0)] != UNCALCULATED && s1.grid[lin(w, x, h - 1)]
                    != UNCALCULATED);
            }
            assert(s2.grid[lin(w, x, y)] != UNCALCULATED);
        } else {
            assert(1 <= y < h - 1);
            assert(x == 0 || x == w - 1);
            assert(s2.grid[lin(w, 0, y)] != UNCALCULATED && s2.grid[lin(w, w - 1, y)]
                != UNCALCULATED);
        }
    }
}

/// One neighbor visit keeps the grid invariant and evolves the grid.
proof fn lemma_visit_props(
    s: TraceState,
    w: int,
    h: int,
    vals: Seq<u16>,
    popped: Coordinates,
    k: int,
)
    requires
        state_wf(s, w, h),
        cells_ok(s.grid, vals),
    ensures
        state_wf(visit(s, w, h, vals, popped, k), w, h),
        cells_ok(visit(s, w, h, vals, popped, k).grid, vals),
        evolves(s.grid, visit(s, w, h, vals, popped, k).grid, vals),
{
    lemma_visit_measure(s, w, h, vals, popped, k);
    let t = popped.plus(direction(k));
    if in_tile(w, h, t.x as int, t.y as int) {
        let tx: int = t.x as int;
        let ty: int = t.y as int;
        lemma_lin_bounds(w, h, tx, ty);
        if s.grid[lin(w, tx, ty)] == UNCALCULATED {
            lemma_store_props(s, w, h, vals, tx, ty);
        }
    }
}

/// A full eight-neighbor visit keeps the grid invariant and evolves the
/// grid.
proof fn lemma_visit_all_props(
    s: TraceState,
    w: int,
    h: int,
    vals: Seq<u16>,
    popped: Coordinates,
    k: int,
)
    requires
        state_wf(s, w, h),
        cells_ok(s.grid, vals),
    ensures
        state_wf(visit_all(s, w, h, vals, popped, k), w, h),
        cells_ok(visit_all(s, w, h, vals, popped, k).grid, vals),
        evolves(s.grid, visit_all(s, w, h, vals, popped, k).grid, vals),
    decreases 8 - k,
{
    if 0 <= k < 8 {
        lemma_visit_props(s, w, h, vals, popped, k);
        let s1 = visit(s, w, h, vals, popped, k);
        lemma_visit_all_props(s1, w, h, vals, popped, k + 1);
        lemma_evolves_trans(s.grid, s1.grid, visit_all(s1, w, h, vals, popped, k + 1).grid, vals);
    }
}

/// The whole tracer keeps the state well formed and the grid invariant and
/// evolves the grid; in particular it never unresolves or overwrites a
/// resolved cell.
pub proof fn lemma_trace_props(s: TraceState, w: int, h: int, vals: Seq<u16>)
    requires
        state_wf(s, w, h),
        cells_ok(s.grid, vals),
    ensures
        state_wf(trace(s, w, h, vals), w, h),
        cells_ok(trace(s, w, h, vals).grid, vals),
        evolves(s.grid, trace(s, w, h, vals).grid, vals),
    decreases state_measure(s),
{
    if s.queue.len() == 0 {
    } else {
        let popped = s.queue.last();
        let s1 = TraceState { queue: s.queue.drop_last(), ..s };
        assert forall|i: int|
            0 <= i < s1.queue.len() implies in_tile(
            w,
            h,
            (#[trigger] s1.queue[i]).x as int,
            s1.queue[i].y as int,
        ) by {
            assert(s1.queue[i] == s.queue[i]);
        }
        lemma_visit_all_props(s1, w, h, vals, popped, 0);
        lemma_visit_all_measure(s1, w, h, vals, popped, 0);
        let s2 = visit_all(s1, w, h, vals, popped, 0);
        lemma_trace_props(s2, w, h, vals);
        lemma_evolves_trans(s.grid, s2.grid, trace(s2, w, h, vals).grid, vals);
    }
}

/// The carry the filler holds when it reaches column `x` of row `y`: the
/// value of the nearest resolved cell to the left of `x`, or the row's left
/// ring cell when no cell in between is resolved.
pub open spec fn carry_at(g: Seq<u32>, w: int, y: int, x: int) -> u32
    decreases x,
{
    if x <= 1 {
        g[lin(w, 0, y)]
    } else if g[lin(w, x - 1, y)] == UNCALCULATED {
        carry_at(g, w, y, x - 1)
    } else {
        g[lin(w, x - 1, y)]
    }
}

/// The row filler never touches cells outside columns `[x0, w-1)` of row
/// `y`.
proof fn lemma_fill_row_untouched(g: Seq<u32>, w: int, h: int, y: int, x0: int, c: u32)
    requires
        g.len() == w * h,
        0 <= y < h,
        1 <= x0,
    ensures
        fill_row(g, w, y, x0, c).len() == g.len(),
        forall|xx: int, yy: int|
            #![trigger lin(w, xx, yy)]
            in_tile(w, h, xx, yy) && (yy != y || xx < x0 || xx >= w - 1) ==> fill_row(
                g,
                w,
                y,
                x0,
                c,
            )[lin(w, xx, yy)] == g[lin(w, xx, yy)],
    decreases w - 1 - x0,
{
    if 1 <= x0 < w - 1 {
        lemma_lin_bounds(w, h, x0, y);
        if g[lin(w, x0, y)] == UNCALCULATED {
            let g1 = g.update(lin(w, x0, y), c);
            lemma_fill_row_untouched(g1, w, h, y, x0 + 1, c);
            assert forall|xx: int, yy: int|
                in_tile(w, h, xx, yy) && (yy != y || xx < x0 || xx >= w - 1) implies fill_row(
                g,
                w,
                y,
                x0,
                c,
            )[#[trigger] lin(w, xx, yy)] == g[lin(w, xx, yy)] by {
                lemma_lin_bounds(w, h, xx, yy);
                lemma_lin_distinct(w, h, xx, yy, x0, y);
                assert(g1[lin(w, xx, yy)] == g[lin(w, xx, yy)]);
            }
        } else {
            lemma_fill_row_untouched(g, w, h, y, x0 + 1, g[lin(w, x0, y)]);
        }
    }
}

/// Filling an unresolved cell with the carry it receives there does not
/// change the carry anywhere to its right.
proof fn lemma_carry_after_update(g: Seq<u32>, w: int, h: int, y: int, x0: int, x: int)
    requires
        g.len() == w * h,
        in_tile(w, h, x0, y),
        1 <= x0,
        g[lin(w, x0, y)] == UNCALCULATED,
        carry_at(g, w, y, x0) != UNCALCULATED,
        x0 < x <= w,
    ensures
        carry_at(g.update(lin(w, x0, y), carry_at(g, w, y, x0)), w, y, x) == carry_at(g, w, y, x),
    decreases x,
{
    let c = carry_at(g, w, y, x0);
    let g1 = g.update(lin(w, x0, y), c);
    lemma_lin_bounds(w, h, x0, y);
    if x == x0 + 1 {
        assert(g1[lin(w, x0, y)] == c);
        assert(carry_at(g, w, y, x0 + 1) == carry_at(g, w, y, x0));
        assert(carry_at(g1, w, y, x0 + 1) == c);
    } else {
        lemma_lin_bounds(w, h, x - 1, y);
        lemma_lin_distinct(w, h, x - 1, y, x0, y);
        lemma_carry_after_update(g, w, h, y, x0, x - 1);
    }
}

/// Characterization of one row's fill: from the carry the filler holds at
/// column `x0` on, an unresolved cell of row `y` ends holding the carry of
/// the nearest resolved cell to its left, and every other cell is kept.
proof fn lemma_fill_row_char(g: Seq<u32>, w: int, h: int, y: int, x0: int)
    requires
        g.len() == w * h,
        0 < y < h - 1,
        1 <= x0,
        carry_at(g, w, y, x0) != UNCALCULATED,
    ensures
        forall|x: int|
            #![trigger lin(w, x, y)]
            x0 <= x < w - 1 ==> fill_row(g, w, y, x0, carry_at(g, w, y, x0))[lin(w, x, y)] == (
            if g[lin(w, x, y)] == UNCALCULATED {
                carry_at(g, w, y, x)
            } else {
                g[lin(w, x, y)]
            }),
    decreases w - 1 - x0,
{
    if x0 < w - 1 {
        let c = carry_at(g, w, y, x0);
        lemma_lin_bounds(w, h, x0, y);
        if g[lin(w, x0, y)] == UNCALCULATED {
            let g1 = g.update(lin(w, x0, y), c);
            lemma_carry_after_update(g, w, h, y, x0, x0 + 1);
            assert(carry_at(g, w, y, x0 + 1) == c);
            assert(carry_at(g1, w, y, x0 + 1) == c);
            lemma_fill_row_char(g1, w, h, y, x0 + 1);
            lemma_fill_row_untouched(g1, w, h, y, x0 + 1, c);
            assert forall|x: int|
                x0 <= x < w - 1 implies fill_row(g, w, y, x0, c)[#[trigger] lin(w, x, y)] == (
            if g[lin(w, x, y)] == UNCALCULATED {
                carry_at(g, w, y, x)
            } else {
                g[lin(w, x, y)]
            }) by {
                lemma_lin_bounds(w, h, x, y);
                if x == x0 {
                    assert(fill_row(g1, w, y, x0 + 1, c)[lin(w, x0, y)] == g1[lin(w, x0, y)]);
                } else {
                    lemma_lin_distinct(w, h, x, y, x0, y);
                    lemma_carry_after_update(g, w, h, y, x0, x);
                    assert(g1[lin(w, x, y)] == g[lin(w, x, y)]);
                }
            }
        } else {
            assert(carry_at(g, w, y, x0 + 1) == g[lin(w, x0, y)]);
            lemma_fill_row_char(g, w, h, y, x0 + 1);
            lemma_fill_row_untouched(g, w, h, y, x0 + 1, g[lin(w, x0, y)]);
        }
    }
}

/// The carry depends only on the cells of its own row.
proof fn lemma_carry_row_eq(g1: Seq<u32>, g2: Seq<u32>, w: int, h: int, y: int, x: int)
    requires
        0 <= y < h,
        1 <= w,
        0 <= x <= w,
        forall|xx: int| #![trigger lin(w, xx, y)] 0 <= xx < w ==> g1[lin(w, xx, y)] == g2[lin(w, xx, y)],
    ensures
        carry_at(g1, w, y, x) == carry_at(g2, w, y, x),
    decreases x,
{
    if x <= 1 {
        assert(g1[lin(w, 0, y)] == g2[lin(w, 0, y)]);
    } else {
        assert(g1[lin(w, x - 1, y)] == g2[lin(w, x - 1, y)]);
        lemma_carry_row_eq(g1, g2, w, h, y, x - 1);
    }
}

/// Characterization of the whole fill phase from row `y0` down, on a grid
/// whose ring is resolved.
pub proof fn lemma_fill_rows_char(g: Seq<u32>, w: int, h: int, y0: int)
    requires
        1 <= w <= u32::MAX,
        1 <= h <= u32::MAX,
        g.len() == w * h,
        ring_done(g, w, h),
        1 <= y0,
    ensures
        fill_rows(g, w, h, y0).len() == g.len(),
        forall|x: int, y: int|
            #![trigger lin(w, x, y)]
            in_tile(w, h, x, y) ==> fill_rows(g, w, h, y0)[lin(w, x, y)] == (if 1 <= x < w - 1
                && y0 <= y < h - 1 && g[lin(w, x, y)] == UNCALCULATED {
                carry_at(g, w, y, x)
            } else {
                g[lin(w, x, y)]
            }),
    decreases h - 1 - y0,
{
    if 1 <= y0 < h - 1 {
        let c0 = g[lin(w, 0, y0)];
        lemma_lin_bounds(w, h, 0, y0);
        assert(in_tile(w, h, 0, y0) && on_ring(w, h, 0, y0));
        assert(c0 != UNCALCULATED);
        assert(carry_at(g, w, y0, 1) == c0);
        let g1 = fill_row(g, w, y0, 1, c0);
        lemma_fill_row_char(g, w, h, y0, 1);
        lemma_fill_row_untouched(g, w, h, y0, 1, c0);
        assert forall|x: int, y: int|
            #![trigger lin(w, x, y)]
            in_tile(w, h, x, y) && on_ring(w, h, x, y) implies g1[lin(w, x, y)] != UNCALCULATED by {
            if y == y0 {
                assert(x == 0 || x == w - 1);
                assert(g1[lin(w, x, y)] == g[lin(w, x, y)]);
            } else {
                assert(g1[lin(w, x, y)] == g[lin(w, x, y)]);
            }
        }
        lemma_fill_rows_char(g1, w, h, y0 + 1);
        assert forall|x: int, y: int|
            in_tile(w, h, x, y) implies fill_rows(g, w, h, y0)[#[trigger] lin(w, x, y)] == (if 1
            <= x < w - 1 && y0 <= y < h - 1 && g[lin(w, x, y)] == UNCALCULATED {
            carry_at(g, w, y, x)
        } else {
            g[lin(w, x, y)]
        }) by {
            lemma_lin_bounds(w, h, x, y);
            assert(fill_rows(g, w, h, y0) == fill_rows(g1, w, h, y0 + 1));
            if y != y0 {
                assert(g1[lin(w, x, y)] == g[lin(w, x, y)]);
            }
            if y0 + 1 <= y < h - 1 && 1 <= x < w - 1 {
                assert forall|xx: int| #![trigger lin(w, xx, y)] 0 <= xx < w implies g1[lin(
                    w,
                    xx,
                    y,
                )] == g[lin(w, xx, y)] by {
                    assert(in_tile(w, h, xx, y));
                }
                lemma_carry_row_eq(g1, g, w, h, y, x);
            }
            if y == y0 && 1 <= x < w - 1 {
                assert(g1[lin(w, x, y0)] == (if g[lin(w, x, y0)] == UNCALCULATED {
                    carry_at(g, w, y0, x)
                } else {
                    g[lin(w, x, y0)]
                }));
                assert(g1[lin(w, x, y0)] != UNCALCULATED) by {
                    if g[lin(w, x, y0)] == UNCALCULATED {
                        lemma_carry_not_sentinel(g, w, h, y0, x);
                    }
                }
            }
        }
    }
}

/// On a row whose left ring cell is resolved, the carry is never the
/// sentinel and always equals some resolved cell of the row.
proof fn lemma_carry_not_sentinel(g: Seq<u32>, w: int, h: int, y: int, x: int)
    requires
        g.len() == w * h,
        0 <= y < h,
        1 <= w,
        0 <= x <= w,
        g[lin(w, 0, y)] != UNCALCULATED,
    ensures
        carry_at(g, w, y, x) != UNCALCULATED,
        exists|xx: int|
            0 <= xx < w && carry_at(g, w, y, x) == g[#[trigger] lin(w, xx, y)] && g[lin(w, xx, y)]
                != UNCALCULATED,
    decreases x,
{
    if x <= 1 {
        assert(carry_at(g, w, y, x) == g[lin(w, 0, y)]);
        assert(0 <= 0 < w && carry_at(g, w, y, x) == g[lin(w, 0, y)] && g[lin(w, 0, y)]
            != UNCALCULATED);
    } else if g[lin(w, x - 1, y)] == UNCALCULATED {
        lemma_carry_not_sentinel(g, w, h, y, x - 1);
    } else {
        assert(0 <= x - 1 < w && carry_at(g, w, y, x) == g[lin(w, x - 1, y)] && g[lin(w, x - 1, y)]
            != UNCALCULATED);
    }
}

/// Every linear index into the grid names a tile cell.
pub proof fn lemma_lin_surjective(w: int, h: int, i: int)
    requires
        1 <= w,
        0 <= i < w * h,
    ensures
        in_tile(w, h, i % w, i / w),
        lin(w, i % w, i / w) == i,
{
    vstd::arithmetic::div_mod::lemma_fundamental_div_mod(i, w);
    vstd::arithmetic::div_mod::lemma_mod_bound(i, w);
    let q = i / w;
    let r = i % w;
    assert(0 <= q < h && q * w + r == i) by (nonlinear_arith)
        requires
            i == w * q + r,
            0 <= r < w,
            0 <= i < w * h,
            1 <= w,
    ;
}

/// A fresh working state is well formed and trivially satisfies the grid
/// invariant.
pub proof fn lemma_initial_state_props(w: int, h: int, vals: Seq<u16>)
    requires
        1 <= w <= u32::MAX,
        1 <= h <= u32::MAX,
    ensures
        state_wf(initial_state(w, h), w, h),
        cells_ok(initial_state(w, h).grid, vals),
{
    assert(w * h >= 0) by (nonlinear_arith)
        requires
            w >= 1,
            h >= 1,
    ;
}

/// The renderer's central theorem, stated on the model: a full render
/// covers every cell with one of the tile's evaluator values, never leaves
/// the sentinel behind, and reproduces the evaluator exactly on the ring.
pub proof fn lemma_render_props(w: int, h: int, vals: Seq<u16>)
    requires
        1 <= w <= u32::MAX,
        1 <= h <= u32::MAX,
        vals.len() == w * h,
    ensures
        traced(w, h, vals).grid.len() == w * h,
        cells_ok(traced(w, h, vals).grid, vals),
        ring_done(traced(w, h, vals).grid, w, h),
        fill(traced(w, h, vals).grid, w, h).len() == w * h,
        render(w, h, vals).len() == w * h,
        forall|x: int, y: int|
            #![trigger lin(w, x, y)]
            in_tile(w, h, x, y) && on_ring(w, h, x, y) ==> fill(traced(w, h, vals).grid, w, h)[lin(
                w,
                x,
                y,
            )] == vals[lin(w, x, y)] as u32 && render(w, h, vals)[lin(w, x, y)] == vals[lin(
                w,
                x,
                y,
            )],
        forall|i: int|
            0 <= i < w * h ==> exists|j: int|
                0 <= j < w * h && #[trigger] fill(traced(w, h, vals).grid, w, h)[i] == vals[j]
                    as u32,
        forall|i: int|
            0 <= i < w * h ==> exists|j: int|
                0 <= j < w * h && #[trigger] render(w, h, vals)[i] == vals[j],
{
    let s0 = initial_state(w, h);
    lemma_initial_state_props(w, h, vals);
    let s1 = seed(s0, w, h, vals);
    lemma_seed_props(s0, w, h, vals);
    let s2 = traced(w, h, vals);
    lemma_trace_props(s1, w, h, vals);
    let gt = s2.grid;
    assert(ring_done(gt, w, h)) by {
        assert forall|x: int, y: int|
            #![trigger lin(w, x, y)]
            in_tile(w, h, x, y) && on_ring(w, h, x, y) implies gt[lin(w, x, y)] != UNCALCULATED by {
            lemma_lin_bounds(w, h, x, y);
            assert(s1.grid[lin(w, x, y)] != UNCALCULATED);
        }
    }
    let gf = fill(gt, w, h);
    lemma_fill_rows_char(gt, w, h, 1);
    assert(gf == fill_rows(gt, w, h, 1));
    assert forall|x: int, y: int|
        #![trigger lin(w, x, y)]
        in_tile(w, h, x, y) && on_ring(w, h, x, y) implies gf[lin(w, x, y)] == vals[lin(w, x, y)]
        as u32 && render(w, h, vals)[lin(w, x, y)] == vals[lin(w, x, y)] by {
        lemma_lin_bounds(w, h, x, y);
        assert(gf[lin(w, x, y)] == gt[lin(w, x, y)]);
        assert(gt[lin(w, x, y)] == vals[lin(w, x, y)] as u32);
        assert(render(w, h, vals)[lin(w, x, y)] == gf[lin(w, x, y)] as u16);
    }
    assert forall|i: int| 0 <= i < w * h implies exists|j: int|
        0 <= j < w * h && #[trigger] gf[i] == vals[j] as u32 by {
        lemma_lin_surjective(w, h, i);
        let x = i % w;
        let y = i / w;
        if 1 <= x < w - 1 && 1 <= y < h - 1 && gt[i] == UNCALCULATED {
            assert(gf[i] == carry_at(gt, w, y, x));
            assert(in_tile(w, h, 0, y) && on_ring(w, h, 0, y));
            lemma_lin_bounds(w, h, 0, y);
            lemma_carry_not_sentinel(gt, w, h, y, x);
            let xx = choose|xx: int|
                0 <= xx < w && carry_at(gt, w, y, x) == gt[#[trigger] lin(w, xx, y)] && gt[lin(
                    w,
                    xx,
                    y,
                )] != UNCALCULATED;
            lemma_lin_bounds(w, h, xx, y);
            assert(gt[lin(w, xx, y)] == vals[lin(w, xx, y)] as u32);
            assert(0 <= lin(w, xx, y) < w * h && gf[i] == vals[lin(w, xx, y)] as u32);
        } else {
            assert(gf[i] == gt[i]);
            if gt[i] == UNCALCULATED {
                assert(on_ring(w, h, x, y));
                assert(gt[lin(w, x, y)] != UNCALCULATED);
                assert(false);
            }
            assert(gt[i] == vals[i] as u32);
        }
    }
    assert forall|i: int| 0 <= i < w * h implies exists|j: int|
        0 <= j < w * h && #[trigger] render(w, h, vals)[i] == vals[j] by {
        let j = choose|j: int| 0 <= j < w * h && gf[i] == vals[j] as u32;
        assert(render(w, h, vals)[i] == gf[i] as u16);
        assert(render(w, h, vals)[i] == vals[j]);
    }
}

} // verus!
