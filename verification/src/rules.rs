//! The mathematical model of the automaton.
//!
//! A generation is a sequence of booleans of length `width * height`, with
//! the cell at `(x, y)` stored at linear index `y * width + x`. The spec
//! functions here say what one generation step computes; the lemmas state
//! the laws the grid's operations obey.

use vstd::prelude::*;
use vstd::arithmetic::div_mod::lemma_fundamental_div_mod;
use vstd::arithmetic::div_mod::lemma_mod_bound;
use vstd::arithmetic::div_mod::lemma_multiply_divide_lt;
use vstd::arithmetic::div_mod::lemma_div_pos_is_pos;

verus! {

/// The contribution of position `(x, y)` to a neighbor count: 1 when the
/// position lies on the grid and holds a live cell, 0 otherwise. Positions
/// off the grid contribute nothing; they are never wrapped around.
pub open spec fn nb(c: Seq<bool>, w: int, h: int, x: int, y: int) -> int {
    if 0 <= x && x < w && 0 <= y && y < h && c[y * w + x] {
        1int
    } else {
        0int
    }
}

/// The number of live cells among the up-to-8 positions adjacent to
/// `(x, y)`, clamped to the grid boundary.
pub open spec fn live_neighbors(c: Seq<bool>, w: int, h: int, x: int, y: int) -> int {
    nb(c, w, h, x - 1, y - 1) + nb(c, w, h, x, y - 1) + nb(c, w, h, x + 1, y - 1)
        + nb(c, w, h, x - 1, y) + nb(c, w, h, x + 1, y)
        + nb(c, w, h, x - 1, y + 1) + nb(c, w, h, x, y + 1) + nb(c, w, h, x + 1, y + 1)
}

/// The standard rule: a live cell survives with 2 or 3 live neighbors and
/// otherwise dies; a dead cell is born with exactly 3 live neighbors and
/// otherwise stays dead.
pub open spec fn next_state(alive: bool, n: int) -> bool {
    if alive {
        2 <= n && n <= 3
    } else {
        n == 3
    }
}

/// The liveness of cell `(x, y)` in the generation after `c`.
pub open spec fn step_cell(c: Seq<bool>, w: int, h: int, x: int, y: int) -> bool {
    next_state(c[y * w + x], live_neighbors(c, w, h, x, y))
}

/// `post` is exactly the generation after `pre` on a `w` by `h` grid.
pub open spec fn is_step(pre: Seq<bool>, post: Seq<bool>, w: int, h: int) -> bool {
    &&& post.len() == w * h
    &&& forall|x: int, y: int|
        0 <= x < w && 0 <= y < h ==> post[y * w + x] == #[trigger] step_cell(pre, w, h, x, y)
}

/// `(x1, y1)` is processed before `(x2, y2)` by a step pass, which walks
/// the grid with `x` outermost and `y` innermost.
pub open spec fn visits_before(x1: int, y1: int, x2: int, y2: int) -> bool {
    x1 < x2 || (x1 == x2 && y1 < y2)
}

/// Every cell the pass visits from cursor `(cx, cy)` on, up to but not
/// including `(ux, uy)`, keeps its state across the step.
pub open spec fn unchanged_between(
    c: Seq<bool>,
    w: int,
    h: int,
    cx: int,
    cy: int,
    ux: int,
    uy: int,
) -> bool {
    forall|xx: int, yy: int|
        0 <= xx < w && 0 <= yy < h && !visits_before(xx, yy, cx, cy) && visits_before(
            xx,
            yy,
            ux,
            uy,
        ) ==> #[trigger] step_cell(c, w, h, xx, yy) == c[yy * w + xx]
}

/// Flipping one cell of a generation.
pub open spec fn toggled(c: Seq<bool>, i: int) -> Seq<bool> {
    c.update(i, !c[i])
}

/// Every in-range coordinate pair maps to an in-range linear index.
pub proof fn lemma_index_in_range(w: int, h: int, x: int, y: int)
    requires
        0 <= x < w,
        0 <= y < h,
    ensures
        0 <= y * w + x < w * h,
{
    assert(0 <= y * w + x < w * h) by (nonlinear_arith)
        requires
            0 <= x < w,
            0 <= y < h,
    ;
}

/// Distinct in-range coordinate pairs map to distinct linear indices.
pub proof fn lemma_index_injective(w: int, x1: int, y1: int, x2: int, y2: int)
    requires
        0 <= x1 < w,
        0 <= x2 < w,
        0 <= y1,
        0 <= y2,
        y1 * w + x1 == y2 * w + x2,
    ensures
        x1 == x2 && y1 == y2,
{
    assert(x1 == x2 && y1 == y2) by (nonlinear_arith)
        requires
            0 <= x1 < w,
            0 <= x2 < w,
            0 <= y1,
            0 <= y2,
            y1 * w + x1 == y2 * w + x2,
    ;
}

/// Every in-range linear index is `y * w + x` for exactly one in-range
/// coordinate pair, namely `(i % w, i / w)`.
pub proof fn lemma_index_decomp(w: int, h: int, i: int)
    requires
        0 <= i < w * h,
        0 < w,
    ensures
        0 <= i % w < w,
        0 <= i / w < h,
        i == (i / w) * w + i % w,
{
    lemma_mod_bound(i, w);
    lemma_fundamental_div_mod(i, w);
    lemma_div_pos_is_pos(i, w);
    lemma_multiply_divide_lt(i, w, h);
    assert(w * (i / w) == (i / w) * w) by (nonlinear_arith);
}

/// Law: the generation step is a function of the prior generation alone.
/// Two full advances of identically seeded grids end in identical
/// generations, however the per-cell work was interleaved or reported.
pub proof fn lemma_step_deterministic(pre: Seq<bool>, a: Seq<bool>, b: Seq<bool>, w: int, h: int)
    requires
        0 <= w,
        0 <= h,
        is_step(pre, a, w, h),
        is_step(pre, b, w, h),
    ensures
        a =~= b,
{
    assert forall|i: int| 0 <= i < a.len() implies a[i] == b[i] by {
        assert(0 < w) by (nonlinear_arith)
            requires
                0 <= i < w * h,
                0 <= w,
        ;
        lemma_index_decomp(w, h, i);
        let x = i % w;
        let y = i / w;
        assert(a[y * w + x] == step_cell(pre, w, h, x, y));
        assert(b[y * w + x] == step_cell(pre, w, h, x, y));
    }
}

/// Law: a corner cell's neighbor count is clamped to the grid. At `(0, 0)`
/// only the three positions that lie on the grid can contribute; nothing
/// wraps to the opposite edge, so the count never exceeds 3.
pub proof fn lemma_corner_clamped(c: Seq<bool>, w: int, h: int)
    requires
        1 <= w,
        1 <= h,
    ensures
        live_neighbors(c, w, h, 0, 0) == nb(c, w, h, 1, 0) + nb(c, w, h, 0, 1) + nb(c, w, h, 1, 1),
        live_neighbors(c, w, h, 0, 0) <= 3,
{
}

/// Law: flipping one cell twice restores the generation it started from.
pub proof fn lemma_toggle_twice(c: Seq<bool>, i: int)
    requires
        0 <= i < c.len(),
    ensures
        toggled(toggled(c, i), i) =~= c,
{
}

} // verus!
