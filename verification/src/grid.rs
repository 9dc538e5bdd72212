//! The grid: two equally sized bit buffers and the operations on them.

use vstd::prelude::*;
use crate::bits::BitBuf;
use crate::bits::bits_of;
use crate::bits::bits_repeat;
use crate::bits::bit_at;
use crate::bits::bit_set;
use crate::rules::live_neighbors;
use crate::rules::nb;
use crate::rules::toggled;
use crate::rules::step_cell;
use crate::rules::is_step;
use crate::rules::unchanged_between;
use crate::rules::visits_before;
use crate::rules::lemma_index_in_range;
use crate::rules::lemma_index_injective;

verus! {

/// A fixed-size rectangular grid of binary cells. `curr` holds the current
/// generation; `next` is the scratch buffer a step writes into before the
/// two are swapped.
pub struct GameOfLife {
    height: usize,
    width: usize,
    curr: BitBuf,
    next: BitBuf,
}

impl GameOfLife {
    /// The grid's width.
    pub closed spec fn spec_width(self) -> int {
        self.width as int
    }

    /// The grid's height.
    pub closed spec fn spec_height(self) -> int {
        self.height as int
    }

    /// The current generation, cell `(x, y)` at index `y * width + x`.
    pub closed spec fn cells(self) -> Seq<bool> {
        bits_of(self.curr)
    }

    /// The scratch buffer a step pass fills before the swap.
    pub closed spec fn scratch(self) -> Seq<bool> {
        bits_of(self.next)
    }

    /// Both buffers hold exactly `width * height` bits, and that product
    /// fits the machine's word.
    pub open spec fn wf(self) -> bool {
        &&& self.cells().len() == self.spec_width() * self.spec_height()
        &&& self.scratch().len() == self.spec_width() * self.spec_height()
        &&& self.spec_width() * self.spec_height() <= usize::MAX
    }

    /// `(x, y)` names a cell of the grid.
    pub open spec fn spec_in_bounds(self, x: int, y: int) -> bool {
        0 <= x < self.spec_width() && 0 <= y < self.spec_height()
    }

    /// What `get` returns: the cell's liveness in bounds, nothing outside.
    pub open spec fn spec_get(self, x: int, y: int) -> Option<bool> {
        if self.spec_in_bounds(x, y) {
            Some(self.cells()[y * self.spec_width() + x])
        } else {
            None
        }
    }

    /// A grid of the given size with every cell dead.
    pub fn new(width: usize, height: usize) -> (g: GameOfLife)
        requires
            width * height <= usize::MAX / 64,
        ensures
            g.wf(),
            g.spec_width() == width,
            g.spec_height() == height,
            g.cells().len() == width * height,
            forall|i: int| 0 <= i < width * height ==> !g.cells()[i],
    {
        let len = width * height;
        GameOfLife { height, width, curr: bits_repeat(false, len), next: bits_repeat(false, len) }
    }

    /// The grid's width, fixed at construction.
    pub fn width(&self) -> (w: usize)
        ensures
            w == self.spec_width(),
    {
        self.width
    }

    /// The grid's height, fixed at construction.
    pub fn height(&self) -> (h: usize)
        ensures
            h == self.spec_height(),
    {
        self.height
    }

    /// Whether `(x, y)` names a cell. Coordinates are unsigned, so the only
    /// failure is "too large".
    pub fn in_bounds(&self, x: usize, y: usize) -> (r: bool)
        ensures
            r == self.spec_in_bounds(x as int, y as int),
    {
        x < self.width && y < self.height
    }

    /// The liveness of cell `(x, y)` in the current generation, or `None`
    /// out of bounds. Pure: the grid is untouched.
    pub fn get(&self, x: usize, y: usize) -> (r: Option<bool>)
        requires
            self.wf(),
        ensures
            r == self.spec_get(x as int, y as int),
    {
        if !self.in_bounds(x, y) {
            return None;
        }
        proof {
            lemma_index_in_range(self.spec_width(), self.spec_height(), x as int, y as int);
        }
        Some(bit_at(&self.curr, y * self.width + x))
    }

    /// Overwrites cell `(x, y)` with `alive` and returns its previous
    /// value; out of bounds it returns `None` and leaves the grid as it
    /// was.
    pub fn set(&mut self, x: usize, y: usize, alive: bool) -> (r: Option<bool>)
        requires
            old(self).wf(),
        ensures
            final(self).wf(),
            final(self).spec_width() == old(self).spec_width(),
            final(self).spec_height() == old(self).spec_height(),
            final(self).scratch() == old(self).scratch(),
            !old(self).spec_in_bounds(x as int, y as int) ==> {
                &&& r is None
                &&& *final(self) == *old(self)
            },
            old(self).spec_in_bounds(x as int, y as int) ==> {
                &&& r == old(self).spec_get(x as int, y as int)
                &&& final(self).cells() == old(self).cells().update(
                    y * old(self).spec_width() + x,
                    alive,
                )
            },
    {
        if !self.in_bounds(x, y) {
            return None;
        }
        proof {
            lemma_index_in_range(self.spec_width(), self.spec_height(), x as int, y as int);
        }
        let index = y * self.width + x;
        let previous = bit_at(&self.curr, index);
        bit_set(&mut self.curr, index, alive);
        Some(previous)
    }

    /// Flips cell `(x, y)` and returns its new value; out of bounds it
    /// returns `None` and leaves the grid as it was.
    pub fn toggle(&mut self, x: usize, y: usize) -> (r: Option<bool>)
        requires
            old(self).wf(),
        ensures
            final(self).wf(),
            final(self).spec_width() == old(self).spec_width(),
            final(self).spec_height() == old(self).spec_height(),
            final(self).scratch() == old(self).scratch(),
            !old(self).spec_in_bounds(x as int, y as int) ==> {
                &&& r is None
                &&& *final(self) == *old(self)
            },
            old(self).spec_in_bounds(x as int, y as int) ==> {
                &&& final(self).cells() == toggled(
                    old(self).cells(),
                    y * old(self).spec_width() + x,
                )
                &&& r == Some(final(self).cells()[y * old(self).spec_width() + x])
            },
    {
        if !self.in_bounds(x, y) {
            return None;
        }
        proof {
            lemma_index_in_range(self.spec_width(), self.spec_height(), x as int, y as int);
        }
        let index = y * self.width + x;
        let new = !bit_at(&self.curr, index);
        bit_set(&mut self.curr, index, new);
        Some(new)
    }

    /// Advances the grid by exactly one generation, discarding the
    /// per-cell change reports: it drains a full incremental pass.
    pub fn step(&mut self)
        requires
            old(self).wf(),
        ensures
            final(self).wf(),
            final(self).spec_width() == old(self).spec_width(),
            final(self).spec_height() == old(self).spec_height(),
            is_step(
                old(self).cells(),
                final(self).cells(),
                old(self).spec_width(),
                old(self).spec_height(),
            ),
    {
        let ghost pre = *self;
        let mut updates = self.step_iter();
        loop
            invariant_except_break
                updates.inv(*self),
                !updates.spec_done(),
                self.spec_width() == pre.spec_width(),
                self.spec_height() == pre.spec_height(),
                self.cells() == pre.cells(),
            ensures
                self.wf(),
                self.spec_width() == pre.spec_width(),
                self.spec_height() == pre.spec_height(),
                is_step(pre.cells(), self.cells(), pre.spec_width(), pre.spec_height()),
            decreases
                pre.spec_width() - updates.spec_x(),
                pre.spec_height() - updates.spec_y(),
        {
            if updates.next(self).is_none() {
                break;
            }
        }
    }

    /// Begins an incremental step: a cursor at the grid's first cell. The
    /// grid itself is untouched until the cursor is driven by
    /// `Updates::next`.
    pub fn step_iter(&mut self) -> (u: Updates)
        requires
            old(self).wf(),
        ensures
            *final(self) == *old(self),
            u.inv(*old(self)),
            !u.spec_done(),
            u.spec_x() == 0,
            u.spec_y() == 0,
    {
        Updates { x: 0, y: 0, done: false }
    }
}

/// One cell whose liveness changed between the generation before and the
/// generation after a step: its coordinates and its new state.
#[derive(Clone, Copy, Debug, PartialEq, Eq, Structural)]
pub struct Update {
    pub x: usize,
    pub y: usize,
    pub alive: bool,
}

/// An in-progress incremental step: a cursor naming the next cell to
/// process, walking the grid with `x` outermost and `y` innermost, and a
/// flag set once the pass has finished and the buffers are swapped.
pub struct Updates {
    x: usize,
    y: usize,
    done: bool,
}

impl Updates {
    /// The cursor's column.
    pub closed spec fn spec_x(self) -> int {
        self.x as int
    }

    /// The cursor's row within the column.
    pub closed spec fn spec_y(self) -> int {
        self.y as int
    }

    /// Whether the pass has finished and swapped the buffers.
    pub closed spec fn spec_done(self) -> bool {
        self.done
    }

    /// The cursor is consistent with grid `g`: it lies on the grid, and
    /// every cell the pass has already visited has had its next state
    /// written into the scratch buffer.
    pub closed spec fn inv(self, g: GameOfLife) -> bool {
        &&& g.wf()
        &&& !self.done ==> {
            &&& (self.x as int) <= g.spec_width()
            &&& (self.y as int) <= g.spec_height()
            &&& (self.x as int == g.spec_width() ==> self.y == 0)
            &&& forall|xx: int, yy: int|
                0 <= xx < g.spec_width() && 0 <= yy < g.spec_height() && visits_before(
                    xx,
                    yy,
                    self.x as int,
                    self.y as int,
                ) ==> g.scratch()[yy * g.spec_width() + xx] == #[trigger] step_cell(
                    g.cells(),
                    g.spec_width(),
                    g.spec_height(),
                    xx,
                    yy,
                )
        }
    }

    /// Processes cells from the cursor on, writing each cell's next state
    /// into the scratch buffer, until one changes — reported as an
    /// `Update` — or the pass runs out of cells, at which point the
    /// buffers are swapped, the just-computed generation becomes current,
    /// and `None` is returned. Once the pass has finished, further calls
    /// return `None` and leave the grid alone.
    pub fn next(&mut self, g: &mut GameOfLife) -> (r: Option<Update>)
        requires
            old(self).inv(*old(g)),
        ensures
            final(self).inv(*final(g)),
            final(g).wf(),
            final(g).spec_width() == old(g).spec_width(),
            final(g).spec_height() == old(g).spec_height(),
            old(self).spec_done() ==> {
                &&& r is None
                &&& *final(g) == *old(g)
                &&& *final(self) == *old(self)
            },
            !old(self).spec_done() ==> match r {
                Option::Some(u) => {
                    &&& !final(self).spec_done()
                    &&& old(g).spec_in_bounds(u.x as int, u.y as int)
                    &&& !visits_before(
                        u.x as int,
                        u.y as int,
                        old(self).spec_x(),
                        old(self).spec_y(),
                    )
                    &&& final(self).spec_x() == u.x as int
                    &&& final(self).spec_y() == u.y as int + 1
                    &&& u.alive == step_cell(
                        old(g).cells(),
                        old(g).spec_width(),
                        old(g).spec_height(),
                        u.x as int,
                        u.y as int,
                    )
                    &&& u.alive != old(g).cells()[u.y as int * old(g).spec_width() + u.x as int]
                    &&& unchanged_between(
                        old(g).cells(),
                        old(g).spec_width(),
                        old(g).spec_height(),
                        old(self).spec_x(),
                        old(self).spec_y(),
                        u.x as int,
                        u.y as int,
                    )
                    &&& final(g).cells() == old(g).cells()
                },
                Option::None => {
                    &&& final(self).spec_done()
                    &&& unchanged_between(
                        old(g).cells(),
                        old(g).spec_width(),
                        old(g).spec_height(),
                        old(self).spec_x(),
                        old(self).spec_y(),
                        old(g).spec_width(),
                        0,
                    )
                    &&& is_step(
                        old(g).cells(),
                        final(g).cells(),
                        old(g).spec_width(),
                        old(g).spec_height(),
                    )
                },
            },
    {
        if self.done {
            return None;
        }
        let ghost g0 = *g;
        let ghost s0 = *self;
        let ghost w = g0.spec_width();
        let ghost h = g0.spec_height();
        while self.x < g.width
            invariant
                g0 == *old(g),
                s0 == *old(self),
                !s0.spec_done(),
                w == g0.spec_width(),
                h == g0.spec_height(),
                g.wf(),
                g.spec_width() == w,
                g.spec_height() == h,
                g.cells() == g0.cells(),
                !self.done,
                (self.x as int) <= w,
                (self.y as int) <= h,
                (self.x as int == w ==> self.y == 0),
                !visits_before(self.x as int, self.y as int, s0.spec_x(), s0.spec_y()),
                forall|xx: int, yy: int|
                    0 <= xx < w && 0 <= yy < h && visits_before(
                        xx,
                        yy,
                        self.x as int,
                        self.y as int,
                    ) ==> g.scratch()[yy * w + xx] == #[trigger] step_cell(
                        g0.cells(),
                        w,
                        h,
                        xx,
                        yy,
                    ),
                unchanged_between(g0.cells(), w, h, s0.spec_x(), s0.spec_y(), self.x as int, self.y as int),
            decreases g.width - self.x,
        {
            let ghost x_entry = self.x;
            while self.y < g.height
                invariant
                    g0 == *old(g),
                    s0 == *old(self),
                    !s0.spec_done(),
                    w == g0.spec_width(),
                    h == g0.spec_height(),
                    g.wf(),
                    g.spec_width() == w,
                    g.spec_height() == h,
                    g.cells() == g0.cells(),
                    !self.done,
                    self.x == x_entry,
                    (self.x as int) < w,
                    (self.y as int) <= h,
                    !visits_before(self.x as int, self.y as int, s0.spec_x(), s0.spec_y()),
                    forall|xx: int, yy: int|
                        0 <= xx < w && 0 <= yy < h && visits_before(
                            xx,
                            yy,
                            self.x as int,
                            self.y as int,
                        ) ==> g.scratch()[yy * w + xx] == #[trigger] step_cell(
                            g0.cells(),
                            w,
                            h,
                            xx,
                            yy,
                        ),
                    unchanged_between(g0.cells(), w, h, s0.spec_x(), s0.spec_y(), self.x as int, self.y as int),
                decreases g.height - self.y,
            {
                let x = self.x;
                let y = self.y;
                proof {
                    lemma_index_in_range(w, h, x as int, y as int);
                }
                let alive = cell_live(g, x, y);
                let n = count_neighbors(g, x, y);
                let lives = if alive {
                    2 <= n && n <= 3
                } else {
                    n == 3
                };
                assert(lives == step_cell(g0.cells(), w, h, x as int, y as int));
                let index = y * g.width + x;
                bit_set(&mut g.next, index, lives);
                proof {
                    assert forall|xx: int, yy: int|
                        0 <= xx < w && 0 <= yy < h && visits_before(
                            xx,
                            yy,
                            x as int,
                            y as int + 1,
                        ) implies g.scratch()[yy * w + xx] == #[trigger] step_cell(
                        g0.cells(),
                        w,
                        h,
                        xx,
                        yy,
                    ) by {
                        lemma_index_in_range(w, h, xx, yy);
                        if visits_before(xx, yy, x as int, y as int) {
                            if yy * w + xx == y as int * w + x as int {
                                lemma_index_injective(w, xx, yy, x as int, y as int);
                            }
                        }
                    }
                }
                self.y = y + 1;
                if alive != lives {
                    return Some(Update { x, y, alive: lives });
                }
            }
            self.x = self.x + 1;
            self.y = 0;
        }
        core::mem::swap(&mut g.curr, &mut g.next);
        self.done = true;
        proof {
            assert forall|xx: int, yy: int| 0 <= xx < w && 0 <= yy < h implies g.cells()[yy * w
                + xx] == #[trigger] step_cell(g0.cells(), w, h, xx, yy) by {
                lemma_index_in_range(w, h, xx, yy);
            }
        }
        None
    }
}

/// Law: on a grid all of whose cells are dead — as `new` leaves it —
/// every in-bounds read returns a dead cell.
pub proof fn lemma_fresh_grid_all_dead(g: GameOfLife, x: usize, y: usize)
    requires
        g.wf(),
        forall|i: int| 0 <= i < g.cells().len() ==> !g.cells()[i],
        g.spec_in_bounds(x as int, y as int),
    ensures
        g.spec_get(x as int, y as int) == Some(false),
{
    lemma_index_in_range(g.spec_width(), g.spec_height(), x as int, y as int);
}

/// Law: `get` and `in_bounds` are functions of the grid and the
/// coordinates alone, so repeated calls with the same arguments and no
/// intervening mutation return the same result. Any values meeting those
/// functions' contracts against the same grid coincide.
pub proof fn lemma_reads_idempotent(
    g: GameOfLife,
    x: usize,
    y: usize,
    r1: Option<bool>,
    r2: Option<bool>,
    b1: bool,
    b2: bool,
)
    requires
        r1 == g.spec_get(x as int, y as int),
        r2 == g.spec_get(x as int, y as int),
        b1 == g.spec_in_bounds(x as int, y as int),
        b2 == g.spec_in_bounds(x as int, y as int),
    ensures
        r1 == r2,
        b1 == b2,
{
}

/// Law: writing a cell and then reading it back yields the written value,
/// and `set` reports exactly the value `get` returned just before the
/// write. `pre` and `post` are related as `set`'s contract relates the
/// grid before and after an in-bounds write.
pub proof fn lemma_set_then_get(pre: GameOfLife, post: GameOfLife, x: usize, y: usize, alive: bool)
    requires
        pre.wf(),
        pre.spec_in_bounds(x as int, y as int),
        post.spec_width() == pre.spec_width(),
        post.spec_height() == pre.spec_height(),
        post.cells() == pre.cells().update(y as int * pre.spec_width() + x as int, alive),
    ensures
        post.spec_get(x as int, y as int) == Some(alive),
        pre.spec_get(x as int, y as int) == Some(
            pre.cells()[y as int * pre.spec_width() + x as int],
        ),
{
    lemma_index_in_range(pre.spec_width(), pre.spec_height(), x as int, y as int);
}

/// The liveness of one in-bounds cell, read straight from the current
/// buffer.
fn cell_live(g: &GameOfLife, x: usize, y: usize) -> (r: bool)
    requires
        g.wf(),
        g.spec_in_bounds(x as int, y as int),
    ensures
        r == g.cells()[y as int * g.spec_width() + x as int],
{
    proof {
        lemma_index_in_range(g.spec_width(), g.spec_height(), x as int, y as int);
    }
    bit_at(&g.curr, y * g.width + x)
}

/// The number of live neighbors of one in-bounds cell: each of the eight
/// adjacent positions contributes exactly when it lies on the grid and is
/// live.
fn count_neighbors(g: &GameOfLife, x: usize, y: usize) -> (n: u8)
    requires
        g.wf(),
        g.spec_in_bounds(x as int, y as int),
    ensures
        n as int == live_neighbors(
            g.cells(),
            g.spec_width(),
            g.spec_height(),
            x as int,
            y as int,
        ),
{
    let ghost c = g.cells();
    let ghost w = g.spec_width();
    let ghost h = g.spec_height();
    let nw: u8 = if x > 0 && y > 0 && cell_live(g, x - 1, y - 1) {
        1
    } else {
        0
    };
    assert(nw as int == nb(c, w, h, x as int - 1, y as int - 1));
    let nn: u8 = if y > 0 && cell_live(g, x, y - 1) {
        1
    } else {
        0
    };
    assert(nn as int == nb(c, w, h, x as int, y as int - 1));
    let ne: u8 = if x + 1 < g.width && y > 0 && cell_live(g, x + 1, y - 1) {
        1
    } else {
        0
    };
    assert(ne as int == nb(c, w, h, x as int + 1, y as int - 1));
    let ww: u8 = if x > 0 && cell_live(g, x - 1, y) {
        1
    } else {
        0
    };
    assert(ww as int == nb(c, w, h, x as int - 1, y as int));
    let ee: u8 = if x + 1 < g.width && cell_live(g, x + 1, y) {
        1
    } else {
        0
    };
    assert(ee as int == nb(c, w, h, x as int + 1, y as int));
    let sw: u8 = if x > 0 && y + 1 < g.height && cell_live(g, x - 1, y + 1) {
        1
    } else {
        0
    };
    assert(sw as int == nb(c, w, h, x as int - 1, y as int + 1));
    let ss: u8 = if y + 1 < g.height && cell_live(g, x, y + 1) {
        1
    } else {
        0
    };
    assert(ss as int == nb(c, w, h, x as int, y as int + 1));
    let se: u8 = if x + 1 < g.width && y + 1 < g.height && cell_live(g, x + 1, y + 1) {
        1
    } else {
        0
    };
    assert(se as int == nb(c, w, h, x as int + 1, y as int + 1));
    nw + nn + ne + ww + ee + sw + ss + se
}

} // verus!
