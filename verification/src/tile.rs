//! The executable tile renderer: request type, edge seeder, frontier
//! tracer, interior filler, and the orchestrator `calc_rect`.
//!
//! Every mutation of the working buffers is proved equal to the
//! corresponding step of the model in [`crate::model`], so the final output
//! is exactly [`crate::model::render`] applied to the tile's dimensions and
//! per-pixel evaluator values.

use vstd::prelude::*;

use crate::eval::Evaluator;
use crate::geometry::Coordinates;
use crate::model::TraceState;
use crate::model::UNCALCULATED;
use crate::model::fill;
use crate::model::fill_row;
use crate::model::fill_rows;
use crate::model::finish;
use crate::model::in_tile;
use crate::model::lemma_lin_bounds;
use crate::model::lemma_tile_vals_at;
use crate::model::lin;
use crate::model::seed;
use crate::model::seed_col_step;
use crate::model::seed_cols;
use crate::model::seed_row_step;
use crate::model::seed_rows;
use crate::model::state_measure;
use crate::model::state_wf;
use crate::model::tile_vals;
use crate::model::trace;
use crate::model::visit;
use crate::model::visit_all;
use crate::model::lemma_visit_all_measure;
use crate::model::lemma_initial_state_props;
use crate::model::lemma_seed_props;
use crate::model::lemma_trace_props;
use crate::model::lemma_render_props;
use crate::model::lemma_lin_surjective;
use crate::model::initial_state;
use crate::model::traced;
use crate::model::render;
use crate::model::on_ring;
use crate::geometry::direction;

verus! {

/// One tile-render request: the tile's origin and extent in pixels, the
/// iteration bound, and the escape-time evaluator that carries the plane
/// mapping and the root function with its derivative.
pub struct CalcInfo<E: Evaluator> {
    /// Top-left pixel of the tile on the logical canvas.
    pub start: Coordinates,
    /// Tile extent: `rect.x` is the width, `rect.y` the height.
    pub rect: Coordinates,
    /// Upper bound on every count the evaluator returns.
    pub max_itr: u16,
    /// The escape-time evaluator sampled at each tile pixel.
    pub eval: E,
}

impl<E: Evaluator> CalcInfo<E> {
    /// Tile width.
    pub open spec fn width(&self) -> int {
        self.rect.x as int
    }

    /// Tile height.
    pub open spec fn height(&self) -> int {
        self.rect.y as int
    }

    /// This request's per-pixel evaluator values, row-major.
    pub open spec fn vals(&self) -> Seq<u16> {
        tile_vals(self.eval, self.start, self.width(), self.height())
    }

    /// A valid request: origin and extent fit the canvas coordinate types,
    /// the tile is at least one pixel on each axis and addressable in
    /// memory, and the evaluator keeps its counts within the iteration
    /// bound.
    pub open spec fn wf(&self) -> bool {
        &&& 0 <= self.start.x <= u32::MAX
        &&& 0 <= self.start.y <= u32::MAX
        &&& 1 <= self.rect.x <= u32::MAX
        &&& 1 <= self.rect.y <= u32::MAX
        &&& self.width() * self.height() <= usize::MAX
        &&& forall|x: int, y: int| self.eval.val(x, y) <= self.max_itr
    }

    /// Build a request for the `w` by `h` tile whose top-left pixel is
    /// `(x, y)`.
    pub fn new(x: u32, y: u32, w: u32, h: u32, max_itr: u16, eval: E) -> (r: Self)
        requires
            w >= 1,
            h >= 1,
            w * h <= usize::MAX,
            forall|px: int, py: int| eval.val(px, py) <= max_itr,
        ensures
            r.wf(),
            r.start == (Coordinates { x: x as i64, y: y as i64 }),
            r.rect == (Coordinates { x: w as i64, y: h as i64 }),
            r.max_itr == max_itr,
            r.eval == eval,
    {
        Self {
            start: Coordinates { x: x as i64, y: y as i64 },
            rect: Coordinates { x: w as i64, y: h as i64 },
            max_itr,
            eval,
        }
    }
}

/// A vector of `n` copies of `v`.
fn filled<T: Copy>(n: usize, v: T) -> (r: Vec<T>)
    ensures
        r@ == Seq::new(n as nat, |i: int| v),
{
    let mut r: Vec<T> = Vec::new();
    let mut k: usize = 0;
    while k < n
        invariant
            k <= n,
            r@.len() == k,
            forall|j: int| 0 <= j < k ==> r@[j] == v,
        decreases n - k,
    {
        r.push(v);
        k = k + 1;
    }
    proof {
        assert(r@ =~= Seq::new(n as nat, |i: int| v));
    }
    r
}

/// Row-major linear index of tile cell `(x, y)`.
fn lin_idx(w: usize, h: usize, x: usize, y: usize) -> (i: usize)
    requires
        x < w,
        y < h,
        w * h <= usize::MAX,
    ensures
        i == lin(w as int, x as int, y as int),
        i < w * h,
{
    proof {
        lemma_lin_bounds(w as int, h as int, x as int, y as int);
    }
    y * w + x
}

/// Resolve tile cell `(x, y)`: evaluate the pixel and store the exact count.
fn store_cell<E: Evaluator>(grid: &mut Vec<u32>, info: &CalcInfo<E>, x: usize, y: usize)
    requires
        info.wf(),
        old(grid)@.len() == info.width() * info.height(),
        x < info.width(),
        y < info.height(),
    ensures
        final(grid)@ == old(grid)@.update(
            lin(info.width(), x as int, y as int),
            info.vals()[lin(info.width(), x as int, y as int)] as u32,
        ),
        final(grid)@.len() == old(grid)@.len(),
{
    let w = info.rect.x as usize;
    let h = info.rect.y as usize;
    let px: i64 = info.start.x + x as i64;
    let py: i64 = info.start.y + y as i64;
    let v: u16 = info.eval.eval(px, py);
    let i = lin_idx(w, h, x, y);
    proof {
        lemma_tile_vals_at(info.eval, info.start, info.width(), info.height(), x as int, y as int);
    }
    grid.set(i, v as u32);
}

/// Queue cell `(x, y)` unless its queued-flag is already set; setting the
/// flag first guarantees each cell is queued at most once per render.
fn push_boundary(
    boundaries: &mut Vec<Coordinates>,
    is_pushed: &mut Vec<bool>,
    x: usize,
    y: usize,
    w: usize,
)
    requires
        x <= u32::MAX,
        y <= u32::MAX,
        (y as int) * (w as int) + (x as int) < old(is_pushed)@.len(),
        (y as int) * (w as int) + (x as int) <= usize::MAX,
    ensures
        ({
            let i = lin(w as int, x as int, y as int);
            if old(is_pushed)@[i] {
                final(is_pushed)@ == old(is_pushed)@ && final(boundaries)@ == old(boundaries)@
            } else {
                final(is_pushed)@ == old(is_pushed)@.update(i, true) && final(boundaries)@
                    == old(boundaries)@.push(Coordinates { x: x as i64, y: y as i64 })
            }
        }),
        final(is_pushed)@.len() == old(is_pushed)@.len(),
{
    let i = y * w + x;
    if !is_pushed[i] {
        is_pushed.set(i, true);
        boundaries.push(Coordinates { x: x as i64, y: y as i64 });
    }
}

/// One step of the seeder's horizontal pass, mirroring
/// [`crate::model::seed_row_step`]: resolve `(i, 0)` and `(i, h-1)` and
/// queue each one that differs from its horizontal predecessor.
fn seed_row_step_exec<E: Evaluator>(
    grid: &mut Vec<u32>,
    is_pushed: &mut Vec<bool>,
    boundaries: &mut Vec<Coordinates>,
    info: &CalcInfo<E>,
    i: usize,
)
    requires
        info.wf(),
        old(grid)@.len() == info.width() * info.height(),
        old(is_pushed)@.len() == info.width() * info.height(),
        1 <= i < info.width(),
    ensures
        (TraceState { grid: final(grid)@, pushed: final(is_pushed)@, queue: final(boundaries)@ })
            == seed_row_step(
            (TraceState { grid: old(grid)@, pushed: old(is_pushed)@, queue: old(boundaries)@ }),
            info.width(),
            info.height(),
            info.vals(),
            i as int,
        ),
        final(grid)@.len() == old(grid)@.len(),
        final(is_pushed)@.len() == old(is_pushed)@.len(),
{
    let w = info.rect.x as usize;
    let h = info.rect.y as usize;
    store_cell(grid, info, i, 0);
    let a = lin_idx(w, h, i, 0);
    let ap = lin_idx(w, h, i - 1, 0);
    if grid[a] != grid[ap] {
        push_boundary(boundaries, is_pushed, i, 0, w);
    }
    store_cell(grid, info, i, h - 1);
    let b = lin_idx(w, h, i, h - 1);
    let bp = lin_idx(w, h, i - 1, h - 1);
    if grid[b] != grid[bp] {
        push_boundary(boundaries, is_pushed, i, h - 1, w);
    }
}

/// One step of the seeder's vertical pass, mirroring
/// [`crate::model::seed_col_step`]: resolve `(0, j)` and `(w-1, j)` and
/// queue each one that differs from the cell one row above it.
fn seed_col_step_exec<E: Evaluator>(
    grid: &mut Vec<u32>,
    is_pushed: &mut Vec<bool>,
    boundaries: &mut Vec<Coordinates>,
    info: &CalcInfo<E>,
    j: usize,
)
    requires
        info.wf(),
        old(grid)@.len() == info.width() * info.height(),
        old(is_pushed)@.len() == info.width() * info.height(),
        1 <= j < info.height() - 1,
    ensures
        (TraceState { grid: final(grid)@, pushed: final(is_pushed)@, queue: final(boundaries)@ })
            == seed_col_step(
            (TraceState { grid: old(grid)@, pushed: old(is_pushed)@, queue: old(boundaries)@ }),
            info.width(),
            info.height(),
            info.vals(),
            j as int,
        ),
        final(grid)@.len() == old(grid)@.len(),
        final(is_pushed)@.len() == old(is_pushed)@.len(),
{
    let w = info.rect.x as usize;
    let h = info.rect.y as usize;
    store_cell(grid, info, 0, j);
    let a = lin_idx(w, h, 0, j);
    let ap = lin_idx(w, h, 0, j - 1);
    if grid[a] != grid[ap] {
        push_boundary(boundaries, is_pushed, 0, j, w);
    }
    store_cell(grid, info, w - 1, j);
    let b = lin_idx(w, h, w - 1, j);
    let bp = lin_idx(w, h, w - 1, j - 1);
    if grid[b] != grid[bp] {
        push_boundary(boundaries, is_pushed, w - 1, j, w);
    }
}

/// The edge seeder: compute the exact count of every cell on the tile's
/// outer ring and queue the ring cells where the count changes, mirroring
/// [`crate::model::seed`].
fn calc_edge<E: Evaluator>(
    grid: &mut Vec<u32>,
    is_pushed: &mut Vec<bool>,
    boundaries: &mut Vec<Coordinates>,
    info: &CalcInfo<E>,
)
    requires
        info.wf(),
        old(grid)@.len() == info.width() * info.height(),
        old(is_pushed)@.len() == info.width() * info.height(),
    ensures
        (TraceState { grid: final(grid)@, pushed: final(is_pushed)@, queue: final(boundaries)@ })
            == seed(
            (TraceState { grid: old(grid)@, pushed: old(is_pushed)@, queue: old(boundaries)@ }),
            info.width(),
            info.height(),
            info.vals(),
        ),
{
    let w = info.rect.x as usize;
    let h = info.rect.y as usize;
    store_cell(grid, info, 0, 0);
    store_cell(grid, info, 0, h - 1);
    let ghost s0 = TraceState { grid: grid@, pushed: is_pushed@, queue: boundaries@ };
    let mut i: usize = 1;
    while i < w
        invariant
            info.wf(),
            w == info.width(),
            h == info.height(),
            grid@.len() == info.width() * info.height(),
            is_pushed@.len() == info.width() * info.height(),
            1 <= i <= w,
            seed_rows(
                (TraceState { grid: grid@, pushed: is_pushed@, queue: boundaries@ }),
                info.width(),
                info.height(),
                info.vals(),
                i as int,
            ) == seed_rows(s0, info.width(), info.height(), info.vals(), 1),
        decreases w - i,
    {
        seed_row_step_exec(grid, is_pushed, boundaries, info, i);
        i = i + 1;
    }
    let ghost s1 = TraceState { grid: grid@, pushed: is_pushed@, queue: boundaries@ };
    assert(s1 == seed_rows(s0, info.width(), info.height(), info.vals(), 1));
    let mut j: usize = 1;
    while j < h - 1
        invariant
            info.wf(),
            w == info.width(),
            h == info.height(),
            grid@.len() == info.width() * info.height(),
            is_pushed@.len() == info.width() * info.height(),
            1 <= j,
            seed_cols(
                (TraceState { grid: grid@, pushed: is_pushed@, queue: boundaries@ }),
                info.width(),
                info.height(),
                info.vals(),
                j as int,
            ) == seed_cols(s1, info.width(), info.height(), info.vals(), 1),
        decreases h - j,
    {
        seed_col_step_exec(grid, is_pushed, boundaries, info, j);
        j = j + 1;
    }
}

/// The tracer's visit of one neighbor of the popped cell `b`, mirroring
/// [`crate::model::visit`]: if the neighbor in direction `d` is a tile
/// cell, resolve it when it is still unresolved, then queue it when its
/// count differs from the popped cell's count.
fn visit_exec<E: Evaluator>(
    grid: &mut Vec<u32>,
    is_pushed: &mut Vec<bool>,
    boundaries: &mut Vec<Coordinates>,
    info: &CalcInfo<E>,
    b: Coordinates,
    d: Coordinates,
    Ghost(k): Ghost<int>,
)
    requires
        info.wf(),
        old(grid)@.len() == info.width() * info.height(),
        old(is_pushed)@.len() == info.width() * info.height(),
        in_tile(info.width(), info.height(), b.x as int, b.y as int),
        d == direction(k),
    ensures
        (TraceState { grid: final(grid)@, pushed: final(is_pushed)@, queue: final(boundaries)@ })
            == visit(
            (TraceState { grid: old(grid)@, pushed: old(is_pushed)@, queue: old(boundaries)@ }),
            info.width(),
            info.height(),
            info.vals(),
            b,
            k,
        ),
        final(grid)@.len() == old(grid)@.len(),
        final(is_pushed)@.len() == old(is_pushed)@.len(),
{
    let w = info.rect.x as usize;
    let h = info.rect.y as usize;
    assert(-1 <= d.x <= 1 && -1 <= d.y <= 1);
    let target = b.add(d);
    let min = Coordinates { x: 0, y: 0 };
    let max = Coordinates { x: info.rect.x, y: info.rect.y };
    if target.is_in_rect(&min, &max) {
        let tx = target.x as usize;
        let ty = target.y as usize;
        let ti = lin_idx(w, h, tx, ty);
        if grid[ti] == UNCALCULATED {
            store_cell(grid, info, tx, ty);
        }
        let bi = lin_idx(w, h, b.x as usize, b.y as usize);
        if grid[ti] != grid[bi] {
            push_boundary(boundaries, is_pushed, tx, ty, w);
        }
    }
}

/// The frontier tracer, mirroring [`crate::model::trace`]: pop the most
/// recently queued cell and visit its eight neighbors, until the queue is
/// empty.
fn track_boundary<E: Evaluator>(
    grid: &mut Vec<u32>,
    is_pushed: &mut Vec<bool>,
    boundaries: &mut Vec<Coordinates>,
    info: &CalcInfo<E>,
)
    requires
        info.wf(),
        state_wf(
            (TraceState { grid: old(grid)@, pushed: old(is_pushed)@, queue: old(boundaries)@ }),
            info.width(),
            info.height(),
        ),
    ensures
        (TraceState { grid: final(grid)@, pushed: final(is_pushed)@, queue: final(boundaries)@ })
            == trace(
            (TraceState { grid: old(grid)@, pushed: old(is_pushed)@, queue: old(boundaries)@ }),
            info.width(),
            info.height(),
            info.vals(),
        ),
{
    let w = info.rect.x as usize;
    let h = info.rect.y as usize;
    let ghost s_in = TraceState { grid: grid@, pushed: is_pushed@, queue: boundaries@ };
    let dirs = Coordinates::all_directions();
    while boundaries.len() > 0
        invariant
            info.wf(),
            w == info.width(),
            h == info.height(),
            forall|k: int| 0 <= k < 8 ==> dirs[k] == direction(k),
            state_wf(
                (TraceState { grid: grid@, pushed: is_pushed@, queue: boundaries@ }),
                info.width(),
                info.height(),
            ),
            trace(
                (TraceState { grid: grid@, pushed: is_pushed@, queue: boundaries@ }),
                info.width(),
                info.height(),
                info.vals(),
            ) == trace(s_in, info.width(), info.height(), info.vals()),
        decreases
                state_measure(
                    (TraceState { grid: grid@, pushed: is_pushed@, queue: boundaries@ }),
                ),
    {
        let ghost s_iter = TraceState { grid: grid@, pushed: is_pushed@, queue: boundaries@ };
        let b = boundaries.pop().unwrap();
        let ghost s_pop = TraceState { grid: grid@, pushed: is_pushed@, queue: boundaries@ };
        proof {
            assert(s_pop.queue =~= s_iter.queue.drop_last());
            assert(b == s_iter.queue.last());
            assert(state_wf(s_pop, info.width(), info.height()));
        }
        let mut k: usize = 0;
        while k < 8
            invariant
                info.wf(),
                w == info.width(),
                h == info.height(),
                forall|kk: int| 0 <= kk < 8 ==> dirs[kk] == direction(kk),
                in_tile(info.width(), info.height(), b.x as int, b.y as int),
                grid@.len() == info.width() * info.height(),
                is_pushed@.len() == info.width() * info.height(),
                k <= 8,
                visit_all(
                    (TraceState { grid: grid@, pushed: is_pushed@, queue: boundaries@ }),
                    info.width(),
                    info.height(),
                    info.vals(),
                    b,
                    k as int,
                ) == visit_all(s_pop, info.width(), info.height(), info.vals(), b, 0),
            decreases 8 - k,
        {
            let d = dirs[k];
            visit_exec(grid, is_pushed, boundaries, info, b, d, Ghost(k as int));
            k = k + 1;
        }
        proof {
            let wi = info.width();
            let hi = info.height();
            let vals = info.vals();
            let s_end = TraceState { grid: grid@, pushed: is_pushed@, queue: boundaries@ };
            assert(s_end == visit_all(s_pop, wi, hi, vals, b, 0));
            lemma_visit_all_measure(s_pop, wi, hi, vals, b, 0);
            assert(trace(s_iter, wi, hi, vals) == trace(s_end, wi, hi, vals));
        }
    }
}

/// The interior filler, mirroring [`crate::model::fill`]: scan each
/// interior row left to right, assigning the running carry to unresolved
/// cells and reloading it from resolved ones.
fn fill_in_the_rest(grid: &mut Vec<u32>, w: usize, h: usize)
    requires
        1 <= w <= u32::MAX,
        1 <= h <= u32::MAX,
        w * h <= usize::MAX,
        old(grid)@.len() == w * h,
    ensures
        final(grid)@ == fill(old(grid)@, w as int, h as int),
{
    let ghost g0 = grid@;
    let mut y: usize = 1;
    while y < h - 1
        invariant
            1 <= w <= u32::MAX,
            1 <= h <= u32::MAX,
            w * h <= usize::MAX,
            grid@.len() == w * h,
            1 <= y,
            fill_rows(grid@, w as int, h as int, y as int) == fill_rows(
                g0,
                w as int,
                h as int,
                1,
            ),
        decreases h - y,
    {
        let row0 = lin_idx(w, h, 0, y);
        let mut carry = grid[row0];
        let ghost gy = grid@;
        let ghost c0 = carry;
        let mut x: usize = 1;
        while x < w - 1
            invariant
                1 <= w <= u32::MAX,
                1 <= h <= u32::MAX,
                w * h <= usize::MAX,
                grid@.len() == w * h,
                1 <= x,
                1 <= y < h - 1,
                fill_row(grid@, w as int, y as int, x as int, carry) == fill_row(
                    gy,
                    w as int,
                    y as int,
                    1,
                    c0,
                ),
            decreases w - x,
        {
            let xi = lin_idx(w, h, x, y);
            if grid[xi] == UNCALCULATED {
                grid.set(xi, carry);
            } else {
                carry = grid[xi];
            }
            x = x + 1;
        }
        proof {
            assert(grid@ == fill_row(gy, w as int, y as int, 1, c0));
        }
        y = y + 1;
    }
}

/// Narrow the fully rendered grid to the output element type; callers show
/// that no sentinel remains, so the narrowing is exact.
fn finish_grid(grid: &Vec<u32>) -> (r: Vec<u16>)
    requires
        forall|i: int| 0 <= i < grid@.len() ==> (#[trigger] grid@[i]) <= 0xffff,
    ensures
        r@ == finish(grid@),
{
    let mut r: Vec<u16> = Vec::new();
    let mut k: usize = 0;
    while k < grid.len()
        invariant
            forall|i: int| 0 <= i < grid@.len() ==> (#[trigger] grid@[i]) <= 0xffff,
            k <= grid@.len(),
            r@.len() == k,
            forall|j: int| 0 <= j < k ==> r@[j] == grid@[j] as u16,
        decreases grid@.len() - k,
    {
        r.push(grid[k] as u16);
        k = k + 1;
    }
    proof {
        assert(r@ =~= finish(grid@));
    }
    r
}

/// Render one tile: seed the ring, trace the basin boundaries, fill the
/// interior, and return the grid as a flat row-major sequence of iteration
/// counts.
///
/// The output is pinned to the model: it equals
/// [`render`]`(width, height, vals)`, a function of the tile's dimensions
/// and the evaluator's values alone, so two calls on equal requests return
/// identical sequences. Every ring cell holds the evaluator's exact count
/// for its pixel; every entry equals the evaluator's count at some tile
/// pixel (no cell retains the sentinel) and never exceeds `max_itr`.
pub fn calc_rect<E: Evaluator>(info: CalcInfo<E>) -> (r: Vec<u16>)
    requires
        info.wf(),
    ensures
        r@ == render(info.width(), info.height(), info.vals()),
        r@.len() == info.width() * info.height(),
        forall|x: int, y: int|
            #![trigger lin(info.width(), x, y)]
            in_tile(info.width(), info.height(), x, y) && on_ring(
                info.width(),
                info.height(),
                x,
                y,
            ) ==> r@[lin(info.width(), x, y)] == info.eval.val(
                info.start.x + x,
                info.start.y + y,
            ),
        forall|i: int|
            0 <= i < r@.len() ==> exists|j: int|
                0 <= j < info.vals().len() && #[trigger] r@[i] == info.vals()[j],
        forall|i: int| 0 <= i < r@.len() ==> #[trigger] r@[i] <= info.max_itr,
{
    let w = info.rect.x as usize;
    let h = info.rect.y as usize;
    let n = w * h;
    let ghost wi = info.width();
    let ghost hi = info.height();
    let ghost vals = info.vals();
    let mut grid = filled(n, UNCALCULATED);
    let mut is_pushed = filled(n, false);
    let mut boundaries: Vec<Coordinates> = Vec::new();
    proof {
        assert(grid@ =~= initial_state(wi, hi).grid);
        assert(is_pushed@ =~= initial_state(wi, hi).pushed);
        assert(boundaries@ =~= initial_state(wi, hi).queue);
        assert((TraceState { grid: grid@, pushed: is_pushed@, queue: boundaries@ })
            == initial_state(wi, hi));
        lemma_initial_state_props(wi, hi, vals);
    }
    calc_edge(&mut grid, &mut is_pushed, &mut boundaries, &info);
    proof {
        lemma_seed_props(initial_state(wi, hi), wi, hi, vals);
    }
    track_boundary(&mut grid, &mut is_pushed, &mut boundaries, &info);
    proof {
        assert((TraceState { grid: grid@, pushed: is_pushed@, queue: boundaries@ })
            == traced(wi, hi, vals));
        lemma_trace_props(seed(initial_state(wi, hi), wi, hi, vals), wi, hi, vals);
        lemma_render_props(wi, hi, vals);
    }
    fill_in_the_rest(&mut grid, w, h);
    proof {
        assert(grid@ == fill(traced(wi, hi, vals).grid, wi, hi));
        assert forall|i: int| 0 <= i < grid@.len() implies (#[trigger] grid@[i]) <= 0xffff by {
            let j = choose|j: int| 0 <= j < wi * hi && grid@[i] == vals[j] as u32;
            assert(grid@[i] == vals[j] as u32);
        }
    }
    let r = finish_grid(&grid);
    proof {
        assert(r@ == render(wi, hi, vals));
        assert forall|x: int, y: int|
            #![trigger lin(wi, x, y)]
            in_tile(wi, hi, x, y) && on_ring(wi, hi, x, y) implies r@[lin(wi, x, y)]
            == info.eval.val(info.start.x + x, info.start.y + y) by {
            lemma_tile_vals_at(info.eval, info.start, wi, hi, x, y);
        }
        assert forall|i: int| 0 <= i < r@.len() implies #[trigger] r@[i] <= info.max_itr by {
            let j = choose|j: int| 0 <= j < wi * hi && r@[i] == vals[j];
            lemma_lin_surjective(wi, hi, j);
            lemma_tile_vals_at(
                info.eval,
                info.start,
                wi,
                hi,
                j % wi,
                j / wi,
            );
            assert(vals[j] == info.eval.val(info.start.x + j % wi, info.start.y + j / wi));
        }
    }
    r
}

} // verus!
