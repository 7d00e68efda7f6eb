//! Uniform spanning trees by random walk (Aldous-Broder).
use crate::generators::{random_below, Generator, MazeGrid};
use crate::grids::wall_grid::adjacent;
use crate::grids::{
    in_bounds, index_of, lemma_index_in_bounds, neighbor_spec, on_border, CellKind, Dimensions,
    Direction, GridKind, Neighbor, column_delta, row_delta,
};
use crate::generators::walks::{
    all_walls, grid_step, is_open_cell, lemma_open_one, lemma_plain_update, maze_connected,
    open_connected, plain,
};
use crate::search::{count_true, lemma_count_true_bound};
use vstd::prelude::*;

verus! {

/// Whether a neighbour counts towards the dead-end test: it is neither Wall
/// nor Cursor, or it is Cursor while the pending kind is not Wall.
pub open spec fn counts_open(n: Option<Neighbor>, pending: CellKind) -> int {
    match n {
        Some(nb) => if (nb.0 != CellKind::Wall && nb.0 != CellKind::Cursor) || (pending
            != CellKind::Wall && nb.0 == CellKind::Cursor) {
            1
        } else {
            0
        },
        None => 0,
    }
}

/// How many neighbours of `(row, column)` count towards the dead-end test.
pub open spec fn open_count(
    cells: Seq<CellKind>,
    dims: Dimensions,
    row: int,
    column: int,
    pending: CellKind,
) -> int {
    counts_open(neighbor_spec(cells, dims, row, column, Direction::North), pending) + counts_open(
        neighbor_spec(cells, dims, row, column, Direction::South),
        pending,
    ) + counts_open(neighbor_spec(cells, dims, row, column, Direction::East), pending)
        + counts_open(neighbor_spec(cells, dims, row, column, Direction::West), pending)
}

/// A neighbour the walk may step to: on a block grid, not on the border.
pub open spec fn may_step(kind: GridKind, dims: Dimensions, n: Neighbor) -> bool {
    kind == GridKind::Block ==> !on_border(dims, n.1.0 as int, n.1.1 as int)
}

fn count_slot(n: Option<Neighbor>, pending: CellKind) -> (r: usize)
    ensures
        r == counts_open(n, pending),
        r <= 1,
{
    match n {
        Some(nb) => if (nb.0 != CellKind::Wall && nb.0 != CellKind::Cursor) || (pending
            != CellKind::Wall && nb.0 == CellKind::Cursor) {
            1
        } else {
            0
        },
        None => 0,
    }
}

/// A neighbour slot the walk may step to.
pub open spec fn allowed(kind: GridKind, dims: Dimensions, n: Option<Neighbor>) -> bool {
    n matches Some(nb) && may_step(kind, dims, nb)
}

/// Some neighbour of `(row, column)` is one the walk may step to.
pub open spec fn can_step(cells: Seq<CellKind>, dims: Dimensions, kind: GridKind, row: int, column: int) -> bool {
    ||| allowed(kind, dims, neighbor_spec(cells, dims, row, column, Direction::North))
    ||| allowed(kind, dims, neighbor_spec(cells, dims, row, column, Direction::South))
    ||| allowed(kind, dims, neighbor_spec(cells, dims, row, column, Direction::East))
    ||| allowed(kind, dims, neighbor_spec(cells, dims, row, column, Direction::West))
}

/// Every cell on the border of the grid is a Wall.
pub open spec fn border_walls(cells: Seq<CellKind>, dims: Dimensions) -> bool {
    forall|r: int, c: int|
        in_bounds(dims, r, c) && on_border(dims, r, c) ==> #[trigger] cells[index_of(dims, r, c)] == CellKind::Wall
}

/// A block grid of at least three rows and three columns, whose border the
/// walk never enters.
pub open spec fn walled_block(kind: GridKind, dims: Dimensions) -> bool {
    kind == GridKind::Block && dims.rows >= 3 && dims.columns >= 3
}

/// Writing at a cell off the border keeps the border walled.
pub proof fn lemma_border_kept(cells: Seq<CellKind>, dims: Dimensions, r0: int, c0: int, k: CellKind)
    requires
        border_walls(cells, dims),
        cells.len() == dims.rows * dims.columns,
        in_bounds(dims, r0, c0),
        !on_border(dims, r0, c0),
    ensures
        border_walls(cells.update(index_of(dims, r0, c0), k), dims),
{
    assert forall|r: int, c: int|
        in_bounds(dims, r, c) && on_border(dims, r, c) implies #[trigger] cells.update(index_of(dims, r0, c0), k)[index_of(dims, r, c)]
            == CellKind::Wall by {
        lemma_index_in_bounds(dims, r, c);
        lemma_index_in_bounds(dims, r0, c0);
    }
}

pub struct AldousBroder {
    pub grid: MazeGrid,
    pub grid_kind: GridKind,
    /// One flag per cell; on a block grid the border starts out visited.
    pub visited: Vec<bool>,
    pub current_cell: (usize, usize),
    /// What the current cell will hold once the walk leaves it.
    pub current_cell_kind: CellKind,
    pub done: bool,
    /// Steps taken by `generate_maze`.
    pub steps: usize,
}

impl AldousBroder {
    pub open spec fn all_visited(&self) -> bool {
        forall|i: int| 0 <= i < self.visited@.len() ==> #[trigger] self.visited@[i]
    }

    pub open spec fn visited_count(&self) -> nat {
        count_true(self.visited@)
    }

    pub open spec fn current_index(&self) -> int {
        index_of(self.grid.dims_view(), self.current_cell.0 as int, self.current_cell.1 as int)
    }

    /// The cells as they will be once the walk leaves its current cell.
    pub open spec fn walk_view(&self) -> Seq<CellKind> {
        self.grid.cells_view().update(self.current_index(), self.current_cell_kind)
    }

    /// On a block grid: the cells the walk will leave behind hold only Empty
    /// and Wall, their Empty cells are connected, and the current cell shows
    /// Cursor, Wall or its pending kind.
    pub open spec fn carved_ok(&self) -> bool {
        let v = self.walk_view();
        let here = self.grid.cells_view()[self.current_index()];
        &&& open_connected(v, self.grid.dims_view())
        &&& plain(v)
        &&& here == CellKind::Cursor || here == CellKind::Wall || here == self.current_cell_kind
    }

    pub open spec fn wf(&self) -> bool {
        &&& self.grid_kind == GridKind::Block ==> self.carved_ok()
        &&& self.grid.wf()
        &&& self.grid.kind_view() == self.grid_kind
        &&& self.visited@.len() == self.grid.cells_view().len()
        &&& in_bounds(self.grid.dims_view(), self.current_cell.0 as int, self.current_cell.1 as int)
        &&& self.done ==> self.all_visited()
        &&& walled_block(self.grid_kind, self.grid.dims_view()) ==> {
            &&& !on_border(self.grid.dims_view(), self.current_cell.0 as int, self.current_cell.1 as int)
            &&& border_walls(self.grid.cells_view(), self.grid.dims_view())
        }
    }

    /// A generator over a `rows` by `columns` grid of the given kind: a block
    /// grid filled with Wall whose border counts as visited, or a wall grid
    /// with every passage closed and nothing visited. The walk starts at (1, 1).
    pub fn new(rows: usize, cols: usize, kind: GridKind) -> (r: AldousBroder)
        requires
            rows >= 2,
            cols >= 2,
            rows * cols <= usize::MAX,
        ensures
            r.wf(),
            !r.done,
            r.grid_kind == kind,
            r.grid.dims_view() == (Dimensions { rows, columns: cols }),
            r.current_cell == (1usize, 1usize),
            r.current_cell_kind == CellKind::Empty,
            r.steps == 0,
            r.grid.cells_view() == Seq::new(
                (rows * cols) as nat,
                |_i: int|
                    if kind == GridKind::Block {
                        CellKind::Wall
                    } else {
                        CellKind::Empty
                    },
            ),
            forall|i: int|
                0 <= i < rows * cols ==> #[trigger] r.visited@[i] == (kind == GridKind::Block
                    && on_border(r.grid.dims_view(), i / (cols as int), i % (cols as int))),
    {
        let mut grid = MazeGrid::with_dims(rows, cols, kind);
        grid.fill();
        let n = rows * cols;
        let mut visited: Vec<bool> = Vec::new();
        let mut index: usize = 0;
        while index < n
            invariant
                index <= n,
                n == rows * cols,
                cols >= 2,
                visited@.len() == index,
                forall|i: int|
                    0 <= i < index ==> #[trigger] visited@[i] == (kind == GridKind::Block
                        && on_border(Dimensions { rows, columns: cols }, i / (cols as int), i % (cols as int))),
            decreases n - index,
        {
            let border = index % cols == 0 || index % cols == cols - 1 || index / cols == 0
                || index / cols == rows - 1;
            visited.push(kind == GridKind::Block && border);
            index = index + 1;
        }
        let r = AldousBroder {
            grid,
            grid_kind: kind,
            visited,
            current_cell: (1, 1),
            current_cell_kind: CellKind::Empty,
            done: false,
            steps: 0,
        };
        proof {
            if kind == GridKind::Block {
                assert(r.grid.cells_view() =~= Seq::new((rows * cols) as nat, |_i: int| CellKind::Wall));
                let cells = r.grid.cells_view();
                let dims = r.grid.dims_view();
                assert(all_walls(cells));
                assert(plain(cells));
                assert forall|a: (int, int)| !#[trigger] is_open_cell(cells, dims, a) by {
                    if in_bounds(dims, a.0, a.1) {
                        lemma_index_in_bounds(dims, a.0, a.1);
                    }
                }
                assert(open_connected(cells, dims));
                lemma_index_in_bounds(dims, 1, 1);
                lemma_open_one(cells, dims, (1, 1), CellKind::Empty);
                lemma_plain_update(cells, index_of(dims, 1, 1), CellKind::Empty);
                assert(r.carved_ok());
                assert forall|rr: int, cc: int|
                    in_bounds(dims, rr, cc) && on_border(dims, rr, cc) implies #[trigger] cells[index_of(dims, rr, cc)]
                        == CellKind::Wall by {
                    lemma_index_in_bounds(dims, rr, cc);
                }
            } else {
                assert(r.grid.cells_view() =~= Seq::new((rows * cols) as nat, |_i: int| CellKind::Empty));
            }
        }
        r
    }

    /// Whether every flag is set.
    fn every_visited(&self) -> (r: bool)
        ensures
            r == self.all_visited(),
    {
        let mut i: usize = 0;
        while i < self.visited.len()
            invariant
                i <= self.visited@.len(),
                forall|j: int| 0 <= j < i ==> #[trigger] self.visited@[j],
            decreases self.visited@.len() - i,
        {
            if !self.visited[i] {
                return false;
            }
            i = i + 1;
        }
        true
    }

    /// Sets one visited flag.
    fn mark_visited(&mut self, row: usize, column: usize)
        requires
            old(self).wf(),
            in_bounds(old(self).grid.dims_view(), row as int, column as int),
        ensures
            final(self).wf(),
            final(self).visited@ == old(self).visited@.update(
                index_of(old(self).grid.dims_view(), row as int, column as int),
                true,
            ),
            final(self).visited_count() >= old(self).visited_count(),
            final(self).grid == old(self).grid,
            final(self).grid_kind == old(self).grid_kind,
            final(self).current_cell == old(self).current_cell,
            final(self).current_cell_kind == old(self).current_cell_kind,
            final(self).done == old(self).done,
            final(self).steps == old(self).steps,
    {
        let dims = self.grid.dims();
        let n = self.visited.len();
        proof {
            lemma_index_in_bounds(dims, row as int, column as int);
        }
        let i = row * dims.columns + column;
        proof {
            if !self.visited@[i as int] {
                lemma_count_true_bound(self.visited@, i as int);
            } else {
                assert(self.visited@.update(i as int, true) =~= self.visited@);
            }
        }
        self.visited.set(i, true);
    }

    /// The neighbours the walk may step to from `(row, column)`, each with
    /// its direction, in the order North, South, East, West.
    fn step_candidates(&self, row: usize, column: usize) -> (r: Vec<(Neighbor, Direction)>)
        requires
            self.wf(),
            in_bounds(self.grid.dims_view(), row as int, column as int),
        ensures
            forall|k: int|
                0 <= k < r@.len() ==> {
                    &&& (#[trigger] r@[k]).1 != Direction::Sentinel
                    &&& neighbor_spec(self.grid.cells_view(), self.grid.dims_view(), row as int, column as int, r@[k].1)
                        == Some(r@[k].0)
                    &&& may_step(self.grid_kind, self.grid.dims_view(), r@[k].0)
                },
            can_step(self.grid.cells_view(), self.grid.dims_view(), self.grid_kind, row as int, column as int)
                ==> r@.len() > 0,
    {
        let dims = self.grid.dims();
        let hood = self.grid.get_neighborhood_of(row, column);
        let mut r: Vec<(Neighbor, Direction)> = Vec::new();
        let slots = [(hood.north, Direction::North), (hood.south, Direction::South), (hood.east, Direction::East), (hood.west, Direction::West)];
        let mut t: usize = 0;
        while t < 4
            invariant
                t <= 4,
                slots@.len() == 4,
                slots@[0] == (hood.north, Direction::North),
                slots@[1] == (hood.south, Direction::South),
                slots@[2] == (hood.east, Direction::East),
                slots@[3] == (hood.west, Direction::West),
                dims == self.grid.dims_view(),
                hood.north == neighbor_spec(self.grid.cells_view(), dims, row as int, column as int, Direction::North),
                hood.south == neighbor_spec(self.grid.cells_view(), dims, row as int, column as int, Direction::South),
                hood.east == neighbor_spec(self.grid.cells_view(), dims, row as int, column as int, Direction::East),
                hood.west == neighbor_spec(self.grid.cells_view(), dims, row as int, column as int, Direction::West),
                forall|k: int|
                    0 <= k < r@.len() ==> {
                        &&& (#[trigger] r@[k]).1 != Direction::Sentinel
                        &&& neighbor_spec(self.grid.cells_view(), dims, row as int, column as int, r@[k].1)
                            == Some(r@[k].0)
                        &&& may_step(self.grid_kind, dims, r@[k].0)
                    },
                forall|u: int| 0 <= u < t && allowed(self.grid_kind, dims, (#[trigger] slots@[u]).0) ==> r@.len() > 0,
            decreases 4 - t,
        {
            let (slot, d) = slots[t];
            let ghost before = r@;
            assert(slots@[t as int] == (slot, d));
            if let Some(nb) = slot {
                let (nr, nc) = nb.1;
                let border = nr == 0 || nr + 1 == dims.rows || nc == 0 || nc + 1 == dims.columns;
                if self.grid_kind == GridKind::Wall || !border {
                    r.push((nb, d));
                }
            }
            t = t + 1;
        }
        r
    }

    /// A neighbour that counts towards the dead-end test is open once the walk
    /// has left the current cell.
    proof fn lemma_counted_neighbor_open(
        &self,
        cells0: Seq<CellKind>,
        v0: Seq<CellKind>,
        dims: Dimensions,
        cur: (usize, usize),
        n: (usize, usize),
        pending: CellKind,
    )
        requires
            cells0.len() == dims.rows * dims.columns,
            in_bounds(dims, cur.0 as int, cur.1 as int),
            in_bounds(dims, n.0 as int, n.1 as int),
            v0 == cells0.update(index_of(dims, cur.0 as int, cur.1 as int), pending),
            plain(v0),
            ({
                let here = cells0[index_of(dims, cur.0 as int, cur.1 as int)];
                here == CellKind::Cursor || here == CellKind::Wall || here == pending
            }),
            open_count(cells0, dims, n.0 as int, n.1 as int, pending) == 1,
        ensures
            exists|y: (int, int)| #[trigger] is_open_cell(v0, dims, y) && grid_step((n.0 as int, n.1 as int), y),
    {
        let ds = seq![Direction::North, Direction::South, Direction::East, Direction::West];
        let k: int = if counts_open(neighbor_spec(cells0, dims, n.0 as int, n.1 as int, Direction::North), pending) == 1 {
            0
        } else if counts_open(neighbor_spec(cells0, dims, n.0 as int, n.1 as int, Direction::South), pending) == 1 {
            1
        } else if counts_open(neighbor_spec(cells0, dims, n.0 as int, n.1 as int, Direction::East), pending) == 1 {
            2
        } else {
            3
        };
        let d = ds[k];
        let y = (n.0 + row_delta(d), n.1 + column_delta(d));
        assert(counts_open(neighbor_spec(cells0, dims, n.0 as int, n.1 as int, d), pending) == 1);
        assert(in_bounds(dims, y.0, y.1));
        lemma_index_in_bounds(dims, y.0, y.1);
        lemma_index_in_bounds(dims, cur.0 as int, cur.1 as int);
        let iy = index_of(dims, y.0, y.1);
        let ic = index_of(dims, cur.0 as int, cur.1 as int);
        if iy != ic {
            assert(v0[iy] == cells0[iy]);
            assert(v0[iy] == CellKind::Empty || v0[iy] == CellKind::Wall);
        }
        assert(is_open_cell(v0, dims, y));
        assert(grid_step((n.0 as int, n.1 as int), y));
    }

    /// One unit of the walk. Once every cell is visited it sets `done` and
    /// writes the pending kind at the current cell. Otherwise it marks the
    /// current cell visited, picks one of the neighbours the walk may step
    /// to uniformly at random, writes the pending kind at the current cell,
    /// and moves there, marking it visited and Cursor. On a block grid the
    /// pending kind becomes Empty when the new cell has exactly one counting
    /// neighbour and the new cell's former kind otherwise; on a wall grid the
    /// passage to a cell not visited before is opened.
    #[verifier::rlimit(100)]
    pub fn step_generation(&mut self)
        requires
            old(self).wf(),
        ensures
            final(self).wf(),
            final(self).grid_kind == old(self).grid_kind,
            final(self).grid.dims_view() == old(self).grid.dims_view(),
            final(self).visited_count() >= old(self).visited_count(),
            final(self).done == old(self).all_visited(),
            final(self).steps == old(self).steps,
            forall|i: int| 0 <= i < old(self).visited@.len() && old(self).visited@[i] ==> #[trigger] final(self).visited@[i],
            !old(self).all_visited() && can_step(
                old(self).grid.cells_view(),
                old(self).grid.dims_view(),
                old(self).grid_kind,
                old(self).current_cell.0 as int,
                old(self).current_cell.1 as int,
            ) ==> final(self).current_cell != old(self).current_cell,
            !old(self).all_visited() && old(self).grid_kind == GridKind::Wall && final(self).current_cell
                != old(self).current_cell && !old(self).visited@[final(self).current_index()]
                ==> final(self).grid.passage_view(old(self).current_cell, final(self).current_cell),
            forall|p: (usize, usize), q: (usize, usize)|
                in_bounds(old(self).grid.dims_view(), p.0 as int, p.1 as int) && in_bounds(old(self).grid.dims_view(), q.0 as int, q.1 as int)
                    && !((p == old(self).current_cell && q == final(self).current_cell) || (p == final(self).current_cell
                    && q == old(self).current_cell)) ==> #[trigger] final(self).grid.passage_view(p, q)
                    == old(self).grid.passage_view(p, q),
            old(self).all_visited() ==> {
                &&& final(self).grid.cells_view() == old(self).grid.cells_view().update(
                    old(self).current_index(),
                    old(self).current_cell_kind,
                )
                &&& final(self).current_cell == old(self).current_cell
                &&& final(self).visited@ == old(self).visited@
            },
            !old(self).all_visited() ==> {
                &&& final(self).visited@[old(self).current_index()]
                &&& final(self).visited@[final(self).current_index()]
                &&& final(self).current_cell == old(self).current_cell ==> final(self).grid.cells_view()
                    == old(self).grid.cells_view()
                &&& final(self).current_cell != old(self).current_cell ==> {
                    &&& adjacent(old(self).current_cell, final(self).current_cell)
                    &&& may_step(
                        old(self).grid_kind,
                        old(self).grid.dims_view(),
                        (old(self).grid.cells_view()[final(self).current_index()], final(self).current_cell),
                    )
                    &&& final(self).grid.cells_view() == old(self).grid.cells_view().update(
                        old(self).current_index(),
                        old(self).current_cell_kind,
                    ).update(final(self).current_index(), CellKind::Cursor)
                    &&& final(self).current_cell_kind == if old(self).grid_kind == GridKind::Wall {
                        old(self).current_cell_kind
                    } else if open_count(
                        old(self).grid.cells_view(),
                        old(self).grid.dims_view(),
                        final(self).current_cell.0 as int,
                        final(self).current_cell.1 as int,
                        old(self).current_cell_kind,
                    ) == 1 {
                        CellKind::Empty
                    } else {
                        old(self).grid.cells_view()[final(self).current_index()]
                    }
                }
            },
    {
        let (row, column) = self.current_cell;
        proof {
            lemma_index_in_bounds(self.grid.dims_view(), row as int, column as int);
        }
        if self.every_visited() {
            let ghost v0 = self.walk_view();
            proof {
                if walled_block(self.grid_kind, self.grid.dims_view()) {
                    lemma_border_kept(self.grid.cells_view(), self.grid.dims_view(), row as int, column as int, self.current_cell_kind);
                }
            }
            self.done = true;
            self.grid.set_cell(row, column, self.current_cell_kind);
            proof {
                assert(self.walk_view() =~= v0);
            }
            return;
        }
        self.mark_visited(row, column);
        let candidates = self.step_candidates(row, column);
        if candidates.len() == 0 {
            return;
        }
        let pick = random_below(candidates.len());
        let (neighbor, dir) = candidates[pick];
        let (n_row, n_col) = neighbor.1;
        proof {
            assert(candidates@[pick as int].1 != Direction::Sentinel);
            assert(adjacent((row, column), (n_row, n_col)));
            lemma_index_in_bounds(self.grid.dims_view(), n_row as int, n_col as int);
            assert(neighbor.0 == self.grid.cells_view()[index_of(self.grid.dims_view(), n_row as int, n_col as int)]);
        }
        let ghost visited0 = self.visited@;
        let ghost cells0 = self.grid.cells_view();
        let ghost v0 = self.walk_view();
        let ghost dims = self.grid.dims_view();
        let pending = self.current_cell_kind;
        if self.grid_kind == GridKind::Block {
            let hood = self.grid.get_neighborhood_of(n_row, n_col);
            let count = count_slot(hood.north, pending) + count_slot(hood.south, pending)
                + count_slot(hood.east, pending) + count_slot(hood.west, pending);
            proof {
                if walled_block(self.grid_kind, dims) {
                    lemma_border_kept(cells0, dims, row as int, column as int, pending);
                }
            }
            self.grid.set_cell(row, column, pending);
            if count == 1 {
                self.current_cell_kind = CellKind::Empty;
                proof {
                    self.lemma_counted_neighbor_open(cells0, v0, dims, (row, column), (n_row, n_col), pending);
                    lemma_open_one(v0, dims, (n_row as int, n_col as int), CellKind::Empty);
                    lemma_plain_update(v0, index_of(dims, n_row as int, n_col as int), CellKind::Empty);
                }
            } else {
                self.current_cell_kind = neighbor.0;
                proof {
                    assert(v0[index_of(dims, n_row as int, n_col as int)] == neighbor.0);
                    assert(v0.update(index_of(dims, n_row as int, n_col as int), neighbor.0) =~= v0);
                }
            }
        } else {
            self.grid.set_cell(row, column, pending);
            let dims = self.grid.dims();
            let n = self.visited.len();
            proof {
                lemma_index_in_bounds(dims, n_row as int, n_col as int);
            }
            if !self.visited[n_row * dims.columns + n_col] {
                self.grid.clear_wall_between((row, column), (n_row, n_col));
            }
        }
        self.current_cell = (n_row, n_col);
        proof {
            assert(may_step(self.grid_kind, dims, neighbor));
        }
        self.mark_visited(n_row, n_col);
        proof {
            if walled_block(self.grid_kind, dims) {
                lemma_border_kept(self.grid.cells_view(), dims, n_row as int, n_col as int, CellKind::Cursor);
            }
        }
        self.grid.set_cell(n_row, n_col, CellKind::Cursor);
        proof {
            assert(self.visited@[index_of(self.grid.dims_view(), row as int, column as int)]);
            assert((n_row, n_col) != (row, column));
            if self.grid_kind == GridKind::Block {
                assert(self.walk_view() =~= v0.update(index_of(dims, n_row as int, n_col as int), self.current_cell_kind));
            }
        }
    }

    /// One step, then a copy of the cells.
    pub fn next_step(&mut self) -> (r: Vec<CellKind>)
        requires
            old(self).wf(),
        ensures
            final(self).wf(),
            final(self).visited_count() >= old(self).visited_count(),
            final(self).done == old(self).all_visited(),
            r@ == final(self).grid.cells_view(),
            forall|i: int| 0 <= i < old(self).visited@.len() && old(self).visited@[i] ==> #[trigger] final(self).visited@[i],
            !old(self).all_visited() && can_step(
                old(self).grid.cells_view(),
                old(self).grid.dims_view(),
                old(self).grid_kind,
                old(self).current_cell.0 as int,
                old(self).current_cell.1 as int,
            ) ==> final(self).current_cell != old(self).current_cell,
    {
        self.step_generation();
        self.grid.snapshot()
    }

    /// Steps until done and returns the cells. The walk ends with
    /// probability one; the loop gives up once `steps` reaches `usize::MAX`.
    pub fn generate_maze(&mut self) -> (r: Vec<CellKind>)
        requires
            old(self).wf(),
        ensures
            final(self).wf(),
            final(self).done ==> final(self).all_visited(),
            final(self).visited_count() >= old(self).visited_count(),
            r@ == final(self).grid.cells_view(),
            old(self).grid_kind == GridKind::Block ==> maze_connected(r@, final(self).grid.dims_view()),
            final(self).done || final(self).steps == usize::MAX,
            old(self).done || old(self).all_visited() ==> final(self).done,
            final(self).grid.dims_view() == old(self).grid.dims_view(),
            final(self).grid_kind == old(self).grid_kind,
            walled_block(old(self).grid_kind, old(self).grid.dims_view()) ==> border_walls(
                r@,
                final(self).grid.dims_view(),
            ),
    {
        let mut taken: usize = 0;
        while !self.done && taken < usize::MAX
            invariant
                self.wf(),
                self.grid_kind == old(self).grid_kind,
                self.visited_count() >= old(self).visited_count(),
                self.grid.dims_view() == old(self).grid.dims_view(),
                self.steps >= taken,
                taken > 0 && (old(self).done || old(self).all_visited()) ==> self.done,
                old(self).done ==> self.done,
                taken == 0 ==> self.visited@ == old(self).visited@,
            decreases usize::MAX - taken,
        {
            self.step_generation();
            self.steps = self.steps.saturating_add(1);
            taken = taken + 1;
        }
        let (row, column) = self.current_cell;
        let ghost v0 = self.walk_view();
        proof {
            lemma_index_in_bounds(self.grid.dims_view(), row as int, column as int);
            if walled_block(self.grid_kind, self.grid.dims_view()) {
                lemma_border_kept(self.grid.cells_view(), self.grid.dims_view(), row as int, column as int, self.current_cell_kind);
            }
        }
        self.grid.set_cell(row, column, self.current_cell_kind);
        proof {
            assert(self.grid.cells_view() =~= v0);
            assert(self.walk_view() =~= v0);
            if self.grid_kind == GridKind::Block {
                let dims = self.grid.dims_view();
                assert forall|p: (int, int)| #[trigger] is_open_cell(v0, dims, p) implies v0[index_of(dims, p.0, p.1)] == CellKind::Empty by {
                    lemma_index_in_bounds(dims, p.0, p.1);
                }
            }
        }
        self.grid.snapshot()
    }

    pub fn is_done(&self) -> (r: bool)
        ensures
            r == self.done,
    {
        self.done
    }
}

impl Generator for AldousBroder {
    open spec fn gen_wf(&self) -> bool {
        self.wf()
    }

    open spec fn carved(&self) -> Seq<CellKind> {
        self.grid.cells_view()
    }

    open spec fn finished(&self) -> bool {
        self.done
    }

    fn step_generation(&mut self) {
        AldousBroder::step_generation(self)
    }

    fn next_step(&mut self) -> (r: Vec<CellKind>) {
        AldousBroder::next_step(self)
    }

    fn generate_maze(&mut self) -> (r: Vec<CellKind>) {
        AldousBroder::generate_maze(self)
    }

    fn is_done(&self) -> (r: bool) {
        AldousBroder::is_done(self)
    }
}

} // verus!
