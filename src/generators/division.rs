//! Mazes by recursive division of a box with a cross of walls.
use crate::generators::random_below;
use crate::generators::walks::{lemma_plain_update, plain};
use crate::grids::block_grid::BlockGrid;
use crate::grids::{in_bounds, index_of, lemma_index_in_bounds, CellKind, Dimensions, Direction};
use vstd::prelude::*;

verus! {

/// Number of coordinates from `lo` to `hi` inclusive.
pub open spec fn span(lo: int, hi: int) -> int {
    if hi >= lo {
        hi - lo + 1
    } else {
        0
    }
}

pub open spec fn min_of(a: int, b: int) -> int {
    if a <= b {
        a
    } else {
        b
    }
}

/// Size of a box once clamped to the grid: `x` runs over columns, `y` over rows.
pub open spec fn box_size(dims: Dimensions, bottom_left: (usize, usize), top_right: (usize, usize)) -> int {
    let c = dims.columns - 1;
    let r = dims.rows - 1;
    span(min_of(bottom_left.0 as int, c), min_of(top_right.0 as int, c)) + span(
        min_of(bottom_left.1 as int, r),
        min_of(top_right.1 as int, r),
    )
}

/// Where a box is divided along one axis running from `lo` to `hi`: a random
/// coordinate in `lo..hi` when the two differ by at least 2, else `lo`
/// itself, and the axis is not divided.
pub fn choose_divide(lo: usize, hi: usize) -> (r: usize)
    ensures
        lo + 2 <= hi ==> lo <= r < hi,
        lo + 2 > hi ==> r == lo,
{
    if lo < hi && hi - lo >= 2 {
        lo + random_below(hi - lo)
    } else {
        lo
    }
}

/// `lo + k` for a random `k` in `0..n`, or `lo` when `n` is zero.
fn random_offset(n: usize) -> (r: usize)
    ensures
        n > 0 ==> r < n,
        n == 0 ==> r == 0,
{
    if n > 0 {
        random_below(n)
    } else {
        0
    }
}

/// Whether `(r, c)` lies on the cross drawn for a box: row `divide_y` over
/// columns `x0 - 1 ..= x1` when the rows are divided, or column `divide_x`
/// over rows `y0 - 1 ..= y1` when the columns are divided.
pub open spec fn on_cross(
    x0: int,
    y0: int,
    x1: int,
    y1: int,
    divide_x: int,
    divide_y: int,
    draw_row: bool,
    draw_column: bool,
    r: int,
    c: int,
) -> bool {
    ||| (draw_row && r == divide_y && x0 - 1 <= c <= x1)
    ||| (draw_column && c == divide_x && y0 - 1 <= r <= y1)
}

/// Which arm of the cross around `(divide_x, divide_y)` a cell lies on, within
/// the box: 0 north and 1 south on column `divide_x`, 2 east and 3 west on
/// row `divide_y`; 4 for any other cell.
pub open spec fn arm_of(x0: int, y0: int, x1: int, y1: int, divide_x: int, divide_y: int, p: (int, int)) -> int {
    if p.1 == divide_x && divide_y < p.0 <= y1 {
        0
    } else if p.1 == divide_x && y0 - 1 <= p.0 < divide_y {
        1
    } else if p.0 == divide_y && divide_x < p.1 <= x1 {
        2
    } else if p.0 == divide_y && x0 - 1 <= p.1 < divide_x {
        3
    } else {
        4
    }
}

pub open spec fn at(p: (usize, usize)) -> (int, int) {
    (p.0 as int, p.1 as int)
}

pub struct RecursiveDivider {
    pub grid: BlockGrid,
}

impl RecursiveDivider {
    pub open spec fn wf(&self) -> bool {
        &&& self.grid.wf()
        &&& self.grid.dims.rows >= 2
        &&& self.grid.dims.columns >= 2
    }

    pub fn new(rows: usize, cols: usize) -> (r: RecursiveDivider)
        requires
            rows >= 2,
            cols >= 2,
            rows * cols <= usize::MAX,
        ensures
            r.wf(),
            r.grid.dims == (Dimensions { rows, columns: cols }),
            r.grid.cells@ == Seq::new((rows * cols) as nat, |_i: int| CellKind::Empty),
    {
        RecursiveDivider { grid: BlockGrid::with_dims(rows, cols) }
    }

    /// Draws Wall along row `divide_y` over columns `x0 - 1 ..= x1` (when
    /// `draw_row`) and along column `divide_x` over rows `y0 - 1 ..= y1` (when
    /// `draw_column`), then opens every protected cell again. Every protected
    /// cell is Empty afterwards.
    pub fn draw_cross(
        &mut self,
        x0: usize,
        y0: usize,
        x1: usize,
        y1: usize,
        divide_x: usize,
        divide_y: usize,
        draw_row: bool,
        draw_column: bool,
        protected: &Vec<(usize, usize)>,
    )
        requires
            old(self).wf(),
            1 <= x0,
            1 <= y0,
            x1 < old(self).grid.dims.columns,
            y1 < old(self).grid.dims.rows,
            divide_x < old(self).grid.dims.columns,
            divide_y < old(self).grid.dims.rows,
            forall|k: int|
                0 <= k < protected@.len() ==> in_bounds(
                    old(self).grid.dims,
                    (#[trigger] protected@[k]).0 as int,
                    protected@[k].1 as int,
                ),
        ensures
            final(self).wf(),
            final(self).grid.dims == old(self).grid.dims,
            plain(old(self).grid.cells@) ==> plain(final(self).grid.cells@),
            forall|k: int|
                0 <= k < protected@.len() ==> final(self).grid.cells@[index_of(
                    old(self).grid.dims,
                    (#[trigger] protected@[k]).0 as int,
                    protected@[k].1 as int,
                )] == CellKind::Empty,
            forall|r: int, c: int|
                in_bounds(old(self).grid.dims, r, c) ==> #[trigger] final(self).grid.cells@[index_of(
                    old(self).grid.dims,
                    r,
                    c,
                )] == if exists|k: int|
                    0 <= k < protected@.len() && protected@[k] == (r as usize, c as usize) {
                    CellKind::Empty
                } else if on_cross(
                    x0 as int,
                    y0 as int,
                    x1 as int,
                    y1 as int,
                    divide_x as int,
                    divide_y as int,
                    draw_row,
                    draw_column,
                    r,
                    c,
                ) {
                    CellKind::Wall
                } else {
                    old(self).grid.cells@[index_of(old(self).grid.dims, r, c)]
                },
    {
        let ghost dims = self.grid.dims;
        let ghost c0 = self.grid.cells@;
        let mut i: usize = x0 - 1;
        while draw_row && i <= x1
            invariant
                self.wf(),
                self.grid.dims == dims,
                dims == old(self).grid.dims,
                c0 == old(self).grid.cells@,
                x1 < dims.columns,
                divide_y < dims.rows,
                i == x0 - 1 || i <= x1 + 1,
                x0 - 1 <= i,
                plain(old(self).grid.cells@) ==> plain(self.grid.cells@),
                forall|r: int, c: int|
                    in_bounds(dims, r, c) ==> #[trigger] self.grid.cells@[index_of(dims, r, c)] == if draw_row && r
                        == divide_y && x0 - 1 <= c < i {
                        CellKind::Wall
                    } else {
                        c0[index_of(dims, r, c)]
                    },
            decreases x1 + 1 - i,
        {
            proof {
                lemma_index_in_bounds(dims, divide_y as int, i as int);
                lemma_plain_update(self.grid.cells@, index_of(dims, divide_y as int, i as int), CellKind::Wall);
            }
            self.grid.set_cell(divide_y, i, CellKind::Wall);
            proof {
                assert forall|r: int, c: int| in_bounds(dims, r, c) implies #[trigger] self.grid.cells@[index_of(dims, r, c)] == if draw_row && r
                    == divide_y && x0 - 1 <= c < i + 1 {
                    CellKind::Wall
                } else {
                    c0[index_of(dims, r, c)]
                } by {
                    lemma_index_in_bounds(dims, r, c);
                }
            }
            i = i + 1;
        }
        let ghost c1 = self.grid.cells@;
        let mut i: usize = y0 - 1;
        while draw_column && i <= y1
            invariant
                self.wf(),
                self.grid.dims == dims,
                y1 < dims.rows,
                divide_x < dims.columns,
                i == y0 - 1 || i <= y1 + 1,
                y0 - 1 <= i,
                plain(old(self).grid.cells@) ==> plain(self.grid.cells@),
                forall|r: int, c: int|
                    in_bounds(dims, r, c) ==> #[trigger] self.grid.cells@[index_of(dims, r, c)] == if draw_column && c
                        == divide_x && y0 - 1 <= r < i {
                        CellKind::Wall
                    } else {
                        c1[index_of(dims, r, c)]
                    },
            decreases y1 + 1 - i,
        {
            proof {
                lemma_index_in_bounds(dims, i as int, divide_x as int);
                lemma_plain_update(self.grid.cells@, index_of(dims, i as int, divide_x as int), CellKind::Wall);
            }
            self.grid.set_cell(i, divide_x, CellKind::Wall);
            proof {
                assert forall|r: int, c: int| in_bounds(dims, r, c) implies #[trigger] self.grid.cells@[index_of(dims, r, c)] == if draw_column && c
                    == divide_x && y0 - 1 <= r < i + 1 {
                    CellKind::Wall
                } else {
                    c1[index_of(dims, r, c)]
                } by {
                    lemma_index_in_bounds(dims, r, c);
                }
            }
            i = i + 1;
        }
        let ghost c2 = self.grid.cells@;
        proof {
            assert forall|r: int, c: int| in_bounds(dims, r, c) implies #[trigger] c2[index_of(dims, r, c)] == if on_cross(
                x0 as int,
                y0 as int,
                x1 as int,
                y1 as int,
                divide_x as int,
                divide_y as int,
                draw_row,
                draw_column,
                r,
                c,
            ) {
                CellKind::Wall
            } else {
                c0[index_of(dims, r, c)]
            } by {
                assert(c1[index_of(dims, r, c)] == if draw_row && r == divide_y && x0 - 1 <= c <= x1 {
                    CellKind::Wall
                } else {
                    c0[index_of(dims, r, c)]
                });
            }
        }
        let mut k: usize = 0;
        while k < protected.len()
            invariant
                self.wf(),
                self.grid.dims == dims,
                dims == old(self).grid.dims,
                k <= protected@.len(),
                forall|j: int|
                    0 <= j < protected@.len() ==> in_bounds(
                        dims,
                        (#[trigger] protected@[j]).0 as int,
                        protected@[j].1 as int,
                    ),
                plain(old(self).grid.cells@) ==> plain(self.grid.cells@),
                forall|j: int|
                    0 <= j < k ==> self.grid.cells@[index_of(
                        dims,
                        (#[trigger] protected@[j]).0 as int,
                        protected@[j].1 as int,
                    )] == CellKind::Empty,
                forall|r: int, c: int|
                    in_bounds(dims, r, c) ==> #[trigger] self.grid.cells@[index_of(dims, r, c)] == if exists|j: int|
                        0 <= j < k && protected@[j] == (r as usize, c as usize) {
                        CellKind::Empty
                    } else {
                        c2[index_of(dims, r, c)]
                    },
            decreases protected@.len() - k,
        {
            let (pr, pc) = protected[k];
            proof {
                assert(in_bounds(dims, protected@[k as int].0 as int, protected@[k as int].1 as int));
                lemma_index_in_bounds(dims, pr as int, pc as int);
                lemma_plain_update(self.grid.cells@, index_of(dims, pr as int, pc as int), CellKind::Empty);
            }
            self.grid.set_cell(pr, pc, CellKind::Empty);
            proof {
                assert forall|j: int|
                    0 <= j < k + 1 implies self.grid.cells@[index_of(
                        dims,
                        (#[trigger] protected@[j]).0 as int,
                        protected@[j].1 as int,
                    )] == CellKind::Empty by {
                    lemma_index_in_bounds(dims, protected@[j].0 as int, protected@[j].1 as int);
                }
                assert forall|r: int, c: int| in_bounds(dims, r, c) implies #[trigger] self.grid.cells@[index_of(dims, r, c)] == if exists|j: int|
                    0 <= j < k + 1 && protected@[j] == (r as usize, c as usize) {
                    CellKind::Empty
                } else {
                    c2[index_of(dims, r, c)]
                } by {
                    lemma_index_in_bounds(dims, r, c);
                    if (r as usize, c as usize) == (pr, pc) {
                        assert(protected@[k as int] == (r as usize, c as usize));
                    } else if exists|j: int| 0 <= j < k + 1 && protected@[j] == (r as usize, c as usize) {
                        let j = choose|j: int| 0 <= j < k + 1 && protected@[j] == (r as usize, c as usize);
                        assert(j < k);
                    }
                }
            }
            k = k + 1;
        }
    }

    /// One level of division of a box that can be divided on some axis: picks
    /// the dividing column and row (an axis whose ends differ by less than 2
    /// is not divided and keeps its first coordinate), draws the walls of the
    /// divided axes, reopens the cells protected by the caller, then opens
    /// one random cell on each arm of the drawn walls but one randomly left
    /// whole. Returns the dividing column and row, the opened cells, and the
    /// cells beside them, which the next level must keep open.
    pub fn divide_once(
        &mut self,
        x0: usize,
        y0: usize,
        x1: usize,
        y1: usize,
        dont_wall: &Vec<(usize, usize)>,
    ) -> (r: (usize, usize, Vec<(usize, usize)>, Vec<(usize, usize)>))
        requires
            old(self).wf(),
            1 <= x0 <= old(self).grid.dims.columns - 1,
            1 <= y0 <= old(self).grid.dims.rows - 1,
            x1 <= old(self).grid.dims.columns - 1,
            y1 <= old(self).grid.dims.rows - 1,
            x0 + 2 <= x1 || y0 + 2 <= y1,
            forall|k: int|
                0 <= k < dont_wall@.len() ==> in_bounds(
                    old(self).grid.dims,
                    (#[trigger] dont_wall@[k]).0 as int,
                    dont_wall@[k].1 as int,
                ),
        ensures
            final(self).wf(),
            final(self).grid.dims == old(self).grid.dims,
            plain(old(self).grid.cells@) ==> plain(final(self).grid.cells@),
            x0 + 2 <= x1 ==> x0 <= r.0 < x1,
            x0 + 2 > x1 ==> r.0 == x0,
            y0 + 2 <= y1 ==> y0 <= r.1 < y1,
            y0 + 2 > y1 ==> r.1 == y0,
            r.2@.len() <= 3,
            forall|k: int|
                0 <= k < r.2@.len() ==> {
                    let a = arm_of(x0 as int, y0 as int, x1 as int, y1 as int, r.0 as int, r.1 as int, at(#[trigger] r.2@[k]));
                    &&& in_bounds(old(self).grid.dims, r.2@[k].0 as int, r.2@[k].1 as int)
                    &&& a < 4
                    &&& (a < 2 ==> x0 + 2 <= x1)
                    &&& (a >= 2 ==> y0 + 2 <= y1)
                },
            forall|k: int, j: int|
                0 <= k < j < r.2@.len() ==> arm_of(x0 as int, y0 as int, x1 as int, y1 as int, r.0 as int, r.1 as int, at(#[trigger] r.2@[k]))
                    < arm_of(x0 as int, y0 as int, x1 as int, y1 as int, r.0 as int, r.1 as int, at(#[trigger] r.2@[j])),
            forall|rr: int, cc: int|
                in_bounds(old(self).grid.dims, rr, cc) ==> #[trigger] final(self).grid.cells@[index_of(
                    old(self).grid.dims,
                    rr,
                    cc,
                )] == if exists|k: int| 0 <= k < r.2@.len() && r.2@[k] == (rr as usize, cc as usize) {
                    CellKind::Empty
                } else if exists|k: int| 0 <= k < dont_wall@.len() && dont_wall@[k] == (rr as usize, cc as usize) {
                    CellKind::Empty
                } else if on_cross(
                    x0 as int,
                    y0 as int,
                    x1 as int,
                    y1 as int,
                    r.0 as int,
                    r.1 as int,
                    y0 + 2 <= y1,
                    x0 + 2 <= x1,
                    rr,
                    cc,
                ) {
                    CellKind::Wall
                } else {
                    old(self).grid.cells@[index_of(old(self).grid.dims, rr, cc)]
                },
            forall|k: int|
                0 <= k < r.3@.len() ==> in_bounds(
                    old(self).grid.dims,
                    (#[trigger] r.3@[k]).0 as int,
                    r.3@[k].1 as int,
                ),
    {
        let dims = self.grid.dims;
        let n = self.grid.cells.len();
        proof {
            assert(dims.rows + 2 <= usize::MAX && dims.columns + 2 <= usize::MAX) by (nonlinear_arith)
                requires
                    dims.rows * dims.columns == n,
                    n <= usize::MAX,
                    dims.rows >= 2,
                    dims.columns >= 2,
            ;
        }
        let do_x_divide = x0 + 2 <= x1;
        let do_y_divide = y0 + 2 <= y1;
        let divide_x = choose_divide(x0, x1);
        let divide_y = choose_divide(y0, y1);
        self.draw_cross(x0, y0, x1, y1, divide_x, divide_y, do_y_divide, do_x_divide, dont_wall);
        let ghost crossed = self.grid.cells@;
        let wall_to_leave_out = random_below(4);
        let mut breaks: Vec<(usize, usize)> = Vec::new();
        let mut protected: Vec<(usize, usize)> = Vec::new();
        let mut i: usize = 0;
        while i < 4
            invariant
                self.wf(),
                self.grid.dims == dims,
                dims == old(self).grid.dims,
                dims.rows >= 2,
                dims.columns >= 2,
                dims.rows + 2 <= usize::MAX,
                dims.columns + 2 <= usize::MAX,
                1 <= x0 <= divide_x <= dims.columns - 1,
                1 <= y0 <= divide_y <= dims.rows - 1,
                x1 <= dims.columns - 1,
                y1 <= dims.rows - 1,
                do_x_divide == (x0 + 2 <= x1),
                do_y_divide == (y0 + 2 <= y1),
                do_x_divide ==> divide_x < x1,
                do_y_divide ==> divide_y < y1,
                !do_x_divide ==> divide_x == x0,
                !do_y_divide ==> divide_y == y0,
                i <= 4,
                wall_to_leave_out < 4,
                breaks@.len() + (if wall_to_leave_out < i {
                    1int
                } else {
                    0int
                }) <= i,
                plain(old(self).grid.cells@) ==> plain(self.grid.cells@),
                forall|k: int|
                    0 <= k < breaks@.len() ==> {
                        let a = arm_of(x0 as int, y0 as int, x1 as int, y1 as int, divide_x as int, divide_y as int, at(#[trigger] breaks@[k]));
                        &&& in_bounds(dims, breaks@[k].0 as int, breaks@[k].1 as int)
                        &&& a < i
                        &&& (a < 2 ==> do_x_divide)
                        &&& (a >= 2 ==> do_y_divide)
                    },
                forall|k: int, j: int|
                    0 <= k < j < breaks@.len() ==> arm_of(x0 as int, y0 as int, x1 as int, y1 as int, divide_x as int, divide_y as int, at(#[trigger] breaks@[k]))
                        < arm_of(x0 as int, y0 as int, x1 as int, y1 as int, divide_x as int, divide_y as int, at(#[trigger] breaks@[j])),
                forall|rr: int, cc: int|
                    in_bounds(dims, rr, cc) ==> #[trigger] self.grid.cells@[index_of(dims, rr, cc)] == if exists|k: int|
                        0 <= k < breaks@.len() && breaks@[k] == (rr as usize, cc as usize) {
                        CellKind::Empty
                    } else {
                        crossed[index_of(dims, rr, cc)]
                    },
                forall|k: int|
                    0 <= k < protected@.len() ==> in_bounds(
                        dims,
                        (#[trigger] protected@[k]).0 as int,
                        protected@[k].1 as int,
                    ),
            decreases 4 - i,
        {
            if i == wall_to_leave_out || (!do_x_divide && i < 2) || (!do_y_divide && i > 1) || (i
                == 0 && divide_y >= y1) || (i == 2 && divide_x >= x1) {
                i = i + 1;
                continue;
            }
            let ghost before = protected@;
            let ghost breaks_before = breaks@;
            let (row, col) = match Direction::from(i) {
                Direction::North => (divide_y + 1 + random_offset(y1 - divide_y), divide_x),
                Direction::South => (divide_y - 1 - random_offset(divide_y - y0), divide_x),
                Direction::East => (divide_y, divide_x + 1 + random_offset(x1 - divide_x)),
                _ => (divide_y, divide_x - 1 - random_offset(divide_x - x0)),
            };
            proof {
                assert(arm_of(x0 as int, y0 as int, x1 as int, y1 as int, divide_x as int, divide_y as int, at((row, col))) == i);
                lemma_index_in_bounds(dims, row as int, col as int);
                lemma_plain_update(self.grid.cells@, index_of(dims, row as int, col as int), CellKind::Empty);
            }
            self.grid.set_cell(row, col, CellKind::Empty);
            breaks.push((row, col));
            proof {
                assert(breaks@[breaks_before.len() as int] == (row, col));
                assert forall|k: int|
                    0 <= k < breaks@.len() implies {
                        let a = arm_of(x0 as int, y0 as int, x1 as int, y1 as int, divide_x as int, divide_y as int, at(#[trigger] breaks@[k]));
                        &&& in_bounds(dims, breaks@[k].0 as int, breaks@[k].1 as int)
                        &&& a < i + 1
                        &&& (a < 2 ==> do_x_divide)
                        &&& (a >= 2 ==> do_y_divide)
                    } by {
                    if k < breaks_before.len() {
                        assert(breaks@[k] == breaks_before[k]);
                    }
                }
                assert forall|k: int, j: int|
                    0 <= k < j < breaks@.len() implies arm_of(x0 as int, y0 as int, x1 as int, y1 as int, divide_x as int, divide_y as int, at(#[trigger] breaks@[k]))
                        < arm_of(x0 as int, y0 as int, x1 as int, y1 as int, divide_x as int, divide_y as int, at(#[trigger] breaks@[j])) by {
                    assert(breaks@[k] == breaks_before[k]);
                    if j < breaks_before.len() {
                        assert(breaks@[j] == breaks_before[j]);
                    }
                }
                assert forall|rr: int, cc: int|
                    in_bounds(dims, rr, cc) implies #[trigger] self.grid.cells@[index_of(dims, rr, cc)] == if exists|k: int|
                        0 <= k < breaks@.len() && breaks@[k] == (rr as usize, cc as usize) {
                        CellKind::Empty
                    } else {
                        crossed[index_of(dims, rr, cc)]
                    } by {
                    lemma_index_in_bounds(dims, rr, cc);
                    if (rr as usize, cc as usize) == (row, col) {
                        assert(breaks@[breaks_before.len() as int] == (rr as usize, cc as usize));
                    } else {
                        if exists|k: int| 0 <= k < breaks@.len() && breaks@[k] == (rr as usize, cc as usize) {
                            let k = choose|k: int| 0 <= k < breaks@.len() && breaks@[k] == (rr as usize, cc as usize);
                            assert(breaks_before[k] == (rr as usize, cc as usize));
                        }
                        if exists|k: int| 0 <= k < breaks_before.len() && breaks_before[k] == (rr as usize, cc as usize) {
                            let k = choose|k: int| 0 <= k < breaks_before.len() && breaks_before[k] == (rr as usize, cc as usize);
                            assert(breaks@[k] == (rr as usize, cc as usize));
                        }
                    }
                }
            }
            if i < 2 {
                if col + 1 < dims.columns {
                    protected.push((row, col + 1));
                }
                if col > 0 {
                    protected.push((row, col - 1));
                }
            } else {
                if row + 1 < dims.rows {
                    protected.push((row + 1, col));
                }
                if row > 0 {
                    protected.push((row - 1, col));
                }
            }
            proof {
                assert forall|k: int| 0 <= k < protected@.len() implies in_bounds(
                    dims,
                    (#[trigger] protected@[k]).0 as int,
                    protected@[k].1 as int,
                ) by {
                    if k < before.len() {
                        assert(protected@[k] == before[k]);
                    }
                }
            }
            i = i + 1;
        }
        proof {
            assert forall|rr: int, cc: int|
                in_bounds(dims, rr, cc) implies #[trigger] self.grid.cells@[index_of(dims, rr, cc)] == if exists|k: int|
                    0 <= k < breaks@.len() && breaks@[k] == (rr as usize, cc as usize) {
                    CellKind::Empty
                } else if exists|k: int| 0 <= k < dont_wall@.len() && dont_wall@[k] == (rr as usize, cc as usize) {
                    CellKind::Empty
                } else if on_cross(
                    x0 as int,
                    y0 as int,
                    x1 as int,
                    y1 as int,
                    divide_x as int,
                    divide_y as int,
                    y0 + 2 <= y1,
                    x0 + 2 <= x1,
                    rr,
                    cc,
                ) {
                    CellKind::Wall
                } else {
                    old(self).grid.cells@[index_of(dims, rr, cc)]
                } by {
                assert(crossed[index_of(dims, rr, cc)] == if exists|k: int|
                    0 <= k < dont_wall@.len() && dont_wall@[k] == (rr as usize, cc as usize) {
                    CellKind::Empty
                } else if on_cross(
                    x0 as int,
                    y0 as int,
                    x1 as int,
                    y1 as int,
                    divide_x as int,
                    divide_y as int,
                    do_y_divide,
                    do_x_divide,
                    rr,
                    cc,
                ) {
                    CellKind::Wall
                } else {
                    old(self).grid.cells@[index_of(dims, rr, cc)]
                });
            }
        }
        (divide_x, divide_y, breaks, protected)
    }

    /// Divides the box (see `divide_once`) and recurses into the four
    /// quarters, handing each the cells beside the opened ones to keep open.
    /// `x` runs over columns and `y` over rows; the box is clamped to the
    /// grid, and a box that no axis of which can be divided is left alone.
    #[verifier::rlimit(100)]
    pub fn subdivide(
        &mut self,
        bottom_left: (usize, usize),
        top_right: (usize, usize),
        dont_wall: &Vec<(usize, usize)>,
    )
        requires
            old(self).wf(),
            bottom_left.0 >= 1,
            bottom_left.1 >= 1,
            forall|k: int|
                0 <= k < dont_wall@.len() ==> in_bounds(
                    old(self).grid.dims,
                    (#[trigger] dont_wall@[k]).0 as int,
                    dont_wall@[k].1 as int,
                ),
        ensures
            final(self).wf(),
            final(self).grid.dims == old(self).grid.dims,
            plain(old(self).grid.cells@) ==> plain(final(self).grid.cells@),
            ({
                let c = old(self).grid.dims.columns - 1;
                let r = old(self).grid.dims.rows - 1;
                min_of(bottom_left.0 as int, c) + 1 >= min_of(top_right.0 as int, c) && min_of(
                    bottom_left.1 as int,
                    r,
                ) + 1 >= min_of(top_right.1 as int, r)
            }) ==> final(self).grid.cells@ == old(self).grid.cells@,
        decreases box_size(old(self).grid.dims, bottom_left, top_right),
    {
        let dims = self.grid.dims;
        let n = self.grid.cells.len();
        proof {
            assert(dims.rows + 2 <= usize::MAX && dims.columns + 2 <= usize::MAX) by (nonlinear_arith)
                requires
                    dims.rows * dims.columns == n,
                    n <= usize::MAX,
                    dims.rows >= 2,
                    dims.columns >= 2,
            ;
        }
        let c = dims.columns - 1;
        let r = dims.rows - 1;
        let x0 = if bottom_left.0 <= c { bottom_left.0 } else { c };
        let y0 = if bottom_left.1 <= r { bottom_left.1 } else { r };
        let x1 = if top_right.0 <= c { top_right.0 } else { c };
        let y1 = if top_right.1 <= r { top_right.1 } else { r };
        if x0 + 1 >= x1 && y0 + 1 >= y1 {
            return;
        }
        let (divide_x, divide_y, _opened, protected) = self.divide_once(x0, y0, x1, y1, dont_wall);
        self.subdivide((x0, divide_y + 2), (divide_x - 1, y1), &protected);
        self.subdivide((divide_x + 2, divide_y + 2), (x1, y1), &protected);
        self.subdivide((x0, y0), (divide_x - 1, divide_y - 1), &protected);
        self.subdivide((divide_x + 2, y0), (x1, divide_y - 1), &protected);
    }

    /// Divides the interior of the grid (all but the border) and returns the cells.
    pub fn generate_maze(&mut self) -> (r: Vec<CellKind>)
        requires
            old(self).wf(),
        ensures
            final(self).wf(),
            final(self).grid.dims == old(self).grid.dims,
            plain(old(self).grid.cells@) ==> plain(r@),
            r@ == final(self).grid.cells@,
    {
        let rows = self.grid.dims.rows;
        let cols = self.grid.dims.columns;
        let empty: Vec<(usize, usize)> = Vec::new();
        self.subdivide((1, 1), (cols - 2, rows - 2), &empty);
        let mut r: Vec<CellKind> = Vec::new();
        let mut i: usize = 0;
        while i < self.grid.cells.len()
            invariant
                i <= self.grid.cells@.len(),
                r@ == self.grid.cells@.subrange(0, i as int),
            decreases self.grid.cells@.len() - i,
        {
            r.push(self.grid.cells[i]);
            i = i + 1;
            proof {
                assert(r@ =~= self.grid.cells@.subrange(0, i as int));
            }
        }
        proof {
            assert(r@ =~= self.grid.cells@);
        }
        r
    }
}

} // verus!
