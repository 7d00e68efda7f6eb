//! The grid variant in which a cell's kind decides passability: Wall cells
//! block, every other kind lets through.
use crate::grids::{
    in_bounds, index_of, lemma_index_in_bounds, neighbor_spec, CellKind, Dimensions, Direction,
    Grid, Neighborhood, SolverKind, column_delta, row_delta,
};
use crate::search::{Graph, Solver};
use vstd::prelude::*;

verus! {

/// Rows and columns of a grid made by `BlockGrid::new`.
pub const DEFAULT_ROWS: usize = 16;

pub const DEFAULT_COLUMNS: usize = 16;

/// Why a graph and solver could not be built.
#[derive(Debug, Clone, Copy, PartialEq, Eq, Structural)]
pub enum SolveError {
    /// No start cell is set.
    MissingStart,
    /// A* needs a goal cell and none is set.
    MissingGoal,
}

/// `n` copies of `kind`.
pub fn filled(kind: CellKind, n: usize) -> (r: Vec<CellKind>)
    ensures
        r@ == Seq::new(n as nat, |_i: int| kind),
{
    let mut v: Vec<CellKind> = Vec::new();
    let mut i: usize = 0;
    while i < n
        invariant
            i <= n,
            v@ == Seq::new(i as nat, |_i: int| kind),
        decreases n - i,
    {
        v.push(kind);
        i = i + 1;
        proof {
            assert(v@ =~= Seq::new(i as nat, |_i: int| kind));
        }
    }
    v
}

/// Row and column of a cell index.
pub proof fn lemma_coords_of(dims: Dimensions, i: int)
    requires
        0 <= i < dims.rows * dims.columns,
    ensures
        in_bounds(dims, i / (dims.columns as int), i % (dims.columns as int)),
        index_of(dims, i / (dims.columns as int), i % (dims.columns as int)) == i,
{
    let c = dims.columns as int;
    assert(c > 0) by (nonlinear_arith)
        requires
            0 <= i < dims.rows * c,
            dims.rows >= 0,
    ;
    vstd::arithmetic::div_mod::lemma_fundamental_div_mod(i, c);
    vstd::arithmetic::div_mod::lemma_div_pos_is_pos(i, c);
    vstd::arithmetic::div_mod::lemma_mod_bound(i, c);
    let q = i / c;
    vstd::arithmetic::mul::lemma_mul_is_commutative(q, c);
    assert(q < dims.rows) by (nonlinear_arith)
        requires
            i == c * q + i % c,
            0 <= i % c,
            i < dims.rows * c,
            c > 0,
    ;
}

/// An edge of the block graph: from the open cell at `(row, column)` to an
/// orthogonally adjacent open cell with index `b`.
pub open spec fn block_edge(cells: Seq<CellKind>, dims: Dimensions, row: int, column: int, b: int) -> bool {
    let open = |r: int, c: int| cells[index_of(dims, r, c)] != CellKind::Wall;
    &&& open(row, column)
    &&& {
        ||| (row + 1 < dims.rows && b == index_of(dims, row + 1, column) && open(row + 1, column))
        ||| (row >= 1 && b == index_of(dims, row - 1, column) && open(row - 1, column))
        ||| (column + 1 < dims.columns && b == index_of(dims, row, column + 1) && open(row, column + 1))
        ||| (column >= 1 && b == index_of(dims, row, column - 1) && open(row, column - 1))
    }
}

/// `g` is the block graph of `cells`: one node per cell and an edge between
/// every two orthogonally adjacent cells of which neither is a Wall.
pub open spec fn is_block_graph(g: &Graph, cells: Seq<CellKind>, dims: Dimensions) -> bool {
    &&& g.node_count() == dims.rows * dims.columns
    &&& g.wf()
    &&& forall|r: int, c: int, b: int|
        in_bounds(dims, r, c) ==> (#[trigger] g.has_edge(index_of(dims, r, c), b) <==> block_edge(
            cells,
            dims,
            r,
            c,
            b,
        ))
}

/// A Path or Explored mark taken back to Empty; other kinds kept.
pub open spec fn unmark(k: CellKind) -> CellKind {
    if k == CellKind::Path || k == CellKind::Explored {
        CellKind::Empty
    } else {
        k
    }
}

/// The cells with every Path and Explored mark taken back to Empty.
pub open spec fn without_marks(cells: Seq<CellKind>) -> Seq<CellKind> {
    Seq::new(cells.len(), |i: int| unmark(cells[i]))
}

/// Whether a Cursor mark is anywhere on the cells.
pub open spec fn has_cursor(cells: Seq<CellKind>) -> bool {
    exists|k: int| 0 <= k < cells.len() && cells[k] == CellKind::Cursor
}

/// What a toggle writes at the clicked cell.
pub open spec fn toggled_kind(prev: CellKind, kind: CellKind) -> CellKind {
    if prev == kind {
        CellKind::Empty
    } else {
        kind
    }
}

pub proof fn lemma_push_contains(s: Seq<usize>, x: usize, b: usize)
    ensures
        s.push(x).contains(b) == (s.contains(b) || b == x),
{
    if s.contains(b) {
        let w = choose|w: int| 0 <= w < s.len() && s[w] == b;
        assert(s.push(x)[w] == b);
    }
    if b == x {
        assert(s.push(x)[s.len() as int] == x);
    }
    if s.push(x).contains(b) && b != x {
        let w = choose|w: int| 0 <= w < s.len() + 1 && s.push(x)[w] == b;
        assert(s[w] == b);
    }
}

/// The nodes that the cell at `(row, column)` has an edge to in the block graph.
fn node_edges(cells: &Vec<CellKind>, dims: Dimensions, row: usize, column: usize) -> (r: Vec<usize>)
    requires
        cells@.len() == dims.rows * dims.columns,
        in_bounds(dims, row as int, column as int),
    ensures
        forall|b: usize| r@.contains(b) <==> block_edge(cells@, dims, row as int, column as int, b as int),
        forall|k: int| 0 <= k < r@.len() ==> #[trigger] r@[k] < cells@.len(),
{
    let n = cells.len();
    let rows = dims.rows;
    let cols = dims.columns;
    proof {
        lemma_index_in_bounds(dims, row as int, column as int);
        if row + 1 < rows {
            lemma_index_in_bounds(dims, row + 1, column as int);
        }
        if row >= 1 {
            lemma_index_in_bounds(dims, row - 1, column as int);
        }
        if column + 1 < cols {
            lemma_index_in_bounds(dims, row as int, column + 1);
        }
        if column >= 1 {
            lemma_index_in_bounds(dims, row as int, column - 1);
        }
    }
    let mut r: Vec<usize> = Vec::new();
    let here = row * cols + column;
    if cells[here] == CellKind::Wall {
        return r;
    }
    let down = row >= 1 && cells[(row - 1) * cols + column] != CellKind::Wall;
    let up = row + 1 < rows && cells[(row + 1) * cols + column] != CellKind::Wall;
    let left = column >= 1 && cells[row * cols + column - 1] != CellKind::Wall;
    let right = column + 1 < cols && cells[row * cols + column + 1] != CellKind::Wall;
    let ghost s0 = r@;
    if down {
        r.push((row - 1) * cols + column);
    }
    let ghost s1 = r@;
    if up {
        r.push((row + 1) * cols + column);
    }
    let ghost s2 = r@;
    if left {
        r.push(row * cols + column - 1);
    }
    let ghost s3 = r@;
    if right {
        r.push(row * cols + column + 1);
    }
    proof {
        assert forall|b: usize| r@.contains(b) <==> block_edge(cells@, dims, row as int, column as int, b as int) by {
            assert(!s0.contains(b));
            if down {
                lemma_push_contains(s0, ((row - 1) * cols + column) as usize, b);
            }
            if up {
                lemma_push_contains(s1, ((row + 1) * cols + column) as usize, b);
            }
            if left {
                lemma_push_contains(s2, (row * cols + column - 1) as usize, b);
            }
            if right {
                lemma_push_contains(s3, (row * cols + column + 1) as usize, b);
            }
        }
    }
    r
}

/// Builds the block graph of `cells`.
pub fn block_graph(cells: &Vec<CellKind>, dims: Dimensions) -> (g: Graph)
    requires
        cells@.len() == dims.rows * dims.columns,
    ensures
        is_block_graph(&g, cells@, dims),
{
    let n = cells.len();
    let mut adjacency: Vec<Vec<usize>> = Vec::new();
    let mut row: usize = 0;
    let mut column: usize = 0;
    let mut i: usize = 0;
    while i < n
        invariant
            n == cells@.len(),
            n == dims.rows * dims.columns,
            i <= n,
            adjacency@.len() == i,
            i == index_of(dims, row as int, column as int),
            column < dims.columns || n == 0,
            i < n ==> in_bounds(dims, row as int, column as int),
            forall|a: int, k: int|
                0 <= a < i && 0 <= k < adjacency@[a]@.len() ==> (#[trigger] adjacency@[a]@[k]) < n,
            forall|r: int, c: int, b: usize|
                in_bounds(dims, r, c) && index_of(dims, r, c) < i ==> (
                #[trigger] adjacency@[index_of(dims, r, c)]@.contains(b) <==> block_edge(
                    cells@,
                    dims,
                    r,
                    c,
                    b as int,
                )),
        decreases n - i,
    {
        let edges = node_edges(cells, dims, row, column);
        adjacency.push(edges);
        proof {
            assert forall|r: int, c: int, b: usize|
                in_bounds(dims, r, c) && index_of(dims, r, c) < i + 1 implies (
                #[trigger] adjacency@[index_of(dims, r, c)]@.contains(b) <==> block_edge(
                    cells@,
                    dims,
                    r,
                    c,
                    b as int,
                )) by {
                if index_of(dims, r, c) == i {
                    lemma_coords_of(dims, i as int);
                    lemma_index_in_bounds(dims, r, c);
                    lemma_index_in_bounds(dims, row as int, column as int);
                }
            }
        }
        i = i + 1;
        if column + 1 < dims.columns {
            column = column + 1;
        } else {
            proof {
                assert(index_of(dims, row + 1, 0) == index_of(dims, row as int, column as int) + 1) by (nonlinear_arith)
                    requires
                        column + 1 == dims.columns,
                ;
            }
            column = 0;
            row = row + 1;
        }
        proof {
            if i < n {
                lemma_coords_of(dims, i as int);
                lemma_index_in_bounds(dims, row as int, column as int);
                assert(in_bounds(dims, row as int, column as int)) by (nonlinear_arith)
                    requires
                        i == row * dims.columns + column,
                        i < dims.rows * dims.columns,
                        column < dims.columns,
                ;
            }
        }
    }
    let g = Graph { adjacency };
    proof {
        assert forall|r: int, c: int, b: int|
            in_bounds(dims, r, c) implies (#[trigger] g.has_edge(index_of(dims, r, c), b) <==> block_edge(
                cells@,
                dims,
                r,
                c,
                b,
            )) by {
            lemma_index_in_bounds(dims, r, c);
            if block_edge(cells@, dims, r, c, b) {
                if r + 1 < dims.rows { lemma_index_in_bounds(dims, r + 1, c); }
                if r >= 1 { lemma_index_in_bounds(dims, r - 1, c); }
                if c + 1 < dims.columns { lemma_index_in_bounds(dims, r, c + 1); }
                if c >= 1 { lemma_index_in_bounds(dims, r, c - 1); }
                assert(adjacency@[index_of(dims, r, c)]@.contains(b as usize));
            }
        }
    }
    g
}

/// A Cursor mark turned into Explored; other kinds kept.
pub open spec fn demote(k: CellKind) -> CellKind {
    if k == CellKind::Cursor {
        CellKind::Explored
    } else {
        k
    }
}

/// The cells with every Cursor mark turned into Explored.
pub open spec fn demote_cursors(cells: Seq<CellKind>) -> Seq<CellKind> {
    Seq::new(cells.len(), |i: int| demote(cells[i]))
}

/// A sequence of cell indices in which each cell is joined to the next by
/// an edge of the block graph.
pub open spec fn block_path(cells: Seq<CellKind>, dims: Dimensions, p: Seq<usize>) -> bool {
    &&& p.len() > 0
    &&& forall|k: int| 0 <= k < p.len() ==> #[trigger] p[k] < cells.len()
    &&& forall|k: int|
        0 <= k < p.len() - 1 ==> #[trigger] block_edge(
            cells,
            dims,
            (p[k] as int) / (dims.columns as int),
            (p[k] as int) % (dims.columns as int),
            p[k + 1] as int,
        )
}

pub open spec fn block_reachable(cells: Seq<CellKind>, dims: Dimensions, a: int, b: int) -> bool {
    exists|p: Seq<usize>| #[trigger] block_path(cells, dims, p) && p[0] == a && p.last() == b
}

/// The cells with every interior cell of `p` (all but its two ends) marked Path.
pub open spec fn painted(cells: Seq<CellKind>, p: Seq<usize>, result: Seq<CellKind>) -> bool {
    &&& result.len() == cells.len()
    &&& forall|k: int|
        0 <= k < cells.len() ==> #[trigger] result[k] == if exists|t: int|
            1 <= t < p.len() - 1 && p[t] == k {
            CellKind::Path
        } else {
            cells[k]
        }
}

/// Paths in a block graph are exactly the block paths of its cells.
pub proof fn lemma_block_graph_paths(g: &Graph, cells: Seq<CellKind>, dims: Dimensions, p: Seq<usize>)
    requires
        is_block_graph(g, cells, dims),
        cells.len() == dims.rows * dims.columns,
    ensures
        g.is_path(p) <==> block_path(cells, dims, p),
{
    let c = dims.columns as int;
    if g.is_path(p) {
        assert forall|k: int| 0 <= k < p.len() - 1 implies #[trigger] block_edge(
            cells,
            dims,
            (p[k] as int) / c,
            (p[k] as int) % c,
            p[k + 1] as int,
        ) by {
            assert(p[k] < g.node_count());
            lemma_coords_of(dims, p[k] as int);
            assert(g.has_edge(p[k] as int, p[k + 1] as int));
            assert(g.has_edge(index_of(dims, (p[k] as int) / c, (p[k] as int) % c), p[k + 1] as int));
        }
    }
    if block_path(cells, dims, p) {
        assert forall|k: int| 0 <= k < p.len() - 1 implies #[trigger] g.has_edge(
            p[k] as int,
            p[k + 1] as int,
        ) by {
            assert(p[k] < cells.len());
            lemma_coords_of(dims, p[k] as int);
            assert(block_edge(cells, dims, (p[k] as int) / c, (p[k] as int) % c, p[k + 1] as int));
            assert(g.has_edge(index_of(dims, (p[k] as int) / c, (p[k] as int) % c), p[k + 1] as int));
        }
    }
}

pub struct BlockGrid {
    pub dims: Dimensions,
    pub cells: Vec<CellKind>,
    pub start: Option<(usize, usize)>,
    pub goal: Option<(usize, usize)>,
    pub cursor: Option<(usize, usize)>,
    pub graph: Option<Graph>,
    pub solver: Option<Solver>,
    pub solver_kind: SolverKind,
}

pub open spec fn opt_in_bounds(dims: Dimensions, p: Option<(usize, usize)>) -> bool {
    p matches Some(q) ==> in_bounds(dims, q.0 as int, q.1 as int)
}

pub open spec fn idx(dims: Dimensions, p: (usize, usize)) -> int {
    index_of(dims, p.0 as int, p.1 as int)
}

impl BlockGrid {
    pub open spec fn wf(&self) -> bool {
        &&& self.cells@.len() == self.dims.rows * self.dims.columns
        &&& opt_in_bounds(self.dims, self.start)
        &&& opt_in_bounds(self.dims, self.goal)
        &&& opt_in_bounds(self.dims, self.cursor)
        &&& self.graph matches Some(g) ==> {
            &&& g.node_count() == self.dims.rows * self.dims.columns
            &&& self.solver matches Some(s) && s.wf(&g) && s.columns == self.dims.columns && (
            s.solved ==> self.cursor.is_some())
        }
    }

    pub fn new() -> (r: BlockGrid)
        ensures
            r.wf(),
            r.dims == (Dimensions { rows: DEFAULT_ROWS, columns: DEFAULT_COLUMNS }),
            r.cells@ == Seq::new((DEFAULT_ROWS * DEFAULT_COLUMNS) as nat, |_i: int| CellKind::Empty),
            r.start.is_none() && r.goal.is_none() && r.cursor.is_none(),
            r.graph.is_none() && r.solver.is_none(),
            r.solver_kind == SolverKind::BFS,
    {
        BlockGrid::with_dims(DEFAULT_ROWS, DEFAULT_COLUMNS)
    }

    pub fn with_dims(rows: usize, columns: usize) -> (r: BlockGrid)
        requires
            rows * columns <= usize::MAX,
        ensures
            r.wf(),
            r.dims == (Dimensions { rows, columns }),
            r.cells@ == Seq::new((rows * columns) as nat, |_i: int| CellKind::Empty),
            r.start.is_none() && r.goal.is_none() && r.cursor.is_none(),
            r.graph.is_none() && r.solver.is_none(),
            r.solver_kind == SolverKind::BFS,
    {
        BlockGrid {
            cells: filled(CellKind::Empty, rows * columns),
            dims: Dimensions { rows, columns },
            start: None,
            goal: None,
            cursor: None,
            graph: None,
            solver: None,
            solver_kind: SolverKind::BFS,
        }
    }

    /// Row-major index of an in-bounds cell.
    fn cell_index(&self, row: usize, column: usize) -> (i: usize)
        requires
            self.wf(),
            in_bounds(self.dims, row as int, column as int),
        ensures
            i == index_of(self.dims, row as int, column as int),
            i < self.cells@.len(),
    {
        let n = self.cells.len();
        proof {
            lemma_index_in_bounds(self.dims, row as int, column as int);
            assert(row * self.dims.columns + column < n);
        }
        row * self.dims.columns + column
    }

    pub fn dims(&self) -> (r: Dimensions)
        ensures
            r == self.dims,
    {
        self.dims
    }

    pub fn is_set(&self, row: usize, column: usize) -> (r: bool)
        requires
            self.wf(),
            in_bounds(self.dims, row as int, column as int),
        ensures
            r == (self.cells@[index_of(self.dims, row as int, column as int)] != CellKind::Empty),
    {
        let kind = self.cells[self.cell_index(row, column)];
        kind != CellKind::Empty
    }

    pub fn get_cell(&self, row: usize, column: usize) -> (r: CellKind)
        requires
            self.wf(),
            in_bounds(self.dims, row as int, column as int),
        ensures
            r == self.cells@[index_of(self.dims, row as int, column as int)],
    {
        self.cells[self.cell_index(row, column)]
    }

    /// Writes `kind` at a cell and returns what was there, keeping the
    /// graph and solver: for the marks that solving paints.
    fn write_cell(&mut self, row: usize, column: usize, kind: CellKind) -> (r: CellKind)
        requires
            old(self).wf(),
            in_bounds(old(self).dims, row as int, column as int),
        ensures
            final(self).wf(),
            r == old(self).cells@[index_of(old(self).dims, row as int, column as int)],
            final(self).cells@ == old(self).cells@.update(
                index_of(old(self).dims, row as int, column as int),
                kind,
            ),
            final(self).dims == old(self).dims,
            final(self).start == old(self).start,
            final(self).goal == old(self).goal,
            final(self).cursor == old(self).cursor,
            final(self).graph == old(self).graph,
            final(self).solver == old(self).solver,
            final(self).solver_kind == old(self).solver_kind,
    {
        let i = self.cell_index(row, column);
        let prev_kind = self.cells[i];
        self.cells.set(i, kind);
        prev_kind
    }

    /// Writes `kind` at a cell and returns what was there. The graph and
    /// solver are dropped when the cell turns into a Wall or stops being one.
    pub fn set_cell(&mut self, row: usize, column: usize, kind: CellKind) -> (r: CellKind)
        requires
            old(self).wf(),
            in_bounds(old(self).dims, row as int, column as int),
        ensures
            final(self).wf(),
            r == old(self).cells@[index_of(old(self).dims, row as int, column as int)],
            final(self).cells@ == old(self).cells@.update(
                index_of(old(self).dims, row as int, column as int),
                kind,
            ),
            final(self).dims == old(self).dims,
            final(self).start == old(self).start,
            final(self).goal == old(self).goal,
            final(self).cursor == old(self).cursor,
            (old(self).cells@[index_of(old(self).dims, row as int, column as int)] == CellKind::Wall) != (kind == CellKind::Wall) ==> final(self).graph.is_none() && final(self).solver.is_none(),
            !(old(self).cells@[index_of(old(self).dims, row as int, column as int)] == CellKind::Wall) != (kind == CellKind::Wall) ==> final(self).graph == old(self).graph && final(self).solver == old(self).solver,
            final(self).solver_kind == old(self).solver_kind,
    {
        let prev_kind = self.write_cell(row, column, kind);
        if (prev_kind == CellKind::Wall) != (kind == CellKind::Wall) {
            self.graph = None;
            self.solver = None;
        }
        prev_kind
    }

    pub fn unset_cell(&mut self, row: usize, column: usize) -> (r: CellKind)
        requires
            old(self).wf(),
            in_bounds(old(self).dims, row as int, column as int),
        ensures
            final(self).wf(),
            r == old(self).cells@[index_of(old(self).dims, row as int, column as int)],
            final(self).cells@ == old(self).cells@.update(
                index_of(old(self).dims, row as int, column as int),
                CellKind::Empty,
            ),
            final(self).dims == old(self).dims,
            final(self).start == old(self).start,
            final(self).goal == old(self).goal,
            final(self).cursor == old(self).cursor,
            (old(self).cells@[index_of(old(self).dims, row as int, column as int)] == CellKind::Wall) != (CellKind::Empty == CellKind::Wall) ==> final(self).graph.is_none() && final(self).solver.is_none(),
            !(old(self).cells@[index_of(old(self).dims, row as int, column as int)] == CellKind::Wall) != (CellKind::Empty == CellKind::Wall) ==> final(self).graph == old(self).graph && final(self).solver == old(self).solver,
            final(self).solver_kind == old(self).solver_kind,
    {
        self.set_cell(row, column, CellKind::Empty)
    }

    /// The coordinates one step from `coords` in `direction`.
    pub fn get_neighbor_coords_of(&self, coords: (usize, usize), direction: Direction) -> (r: (
        usize,
        usize,
    ))
        requires
            direction != Direction::Sentinel,
            0 <= coords.0 + row_delta(direction) <= usize::MAX,
            0 <= coords.1 + column_delta(direction) <= usize::MAX,
        ensures
            r.0 == coords.0 + row_delta(direction),
            r.1 == coords.1 + column_delta(direction),
    {
        let row = coords.0;
        let column = coords.1;
        match direction {
            Direction::North => (row + 1, column),
            Direction::South => (row - 1, column),
            Direction::East => (row, column + 1),
            _ => (row, column - 1),
        }
    }

    /// Writes `kind` at the neighbour of `coords` in `direction` and returns
    /// the neighbour's coordinates.
    pub fn set_neighbor_of(&mut self, coords: (usize, usize), direction: Direction, kind: CellKind) -> (r: (
        usize,
        usize,
    ))
        requires
            old(self).wf(),
            direction != Direction::Sentinel,
            in_bounds(
                old(self).dims,
                coords.0 + row_delta(direction),
                coords.1 + column_delta(direction),
            ),
        ensures
            final(self).wf(),
            r.0 == coords.0 + row_delta(direction),
            r.1 == coords.1 + column_delta(direction),
            final(self).cells@ == old(self).cells@.update(idx(old(self).dims, r), kind),
            final(self).dims == old(self).dims,
            final(self).start == old(self).start,
            final(self).goal == old(self).goal,
            final(self).cursor == old(self).cursor,
            (old(self).cells@[idx(old(self).dims, r)] == CellKind::Wall) != (kind == CellKind::Wall) ==> final(self).graph.is_none() && final(self).solver.is_none(),
            !(old(self).cells@[idx(old(self).dims, r)] == CellKind::Wall) != (kind == CellKind::Wall) ==> final(self).graph == old(self).graph && final(self).solver == old(self).solver,
            final(self).solver_kind == old(self).solver_kind,
    {
        let (n_row, n_col) = self.get_neighbor_coords_of(coords, direction);
        self.set_cell(n_row, n_col, kind);
        (n_row, n_col)
    }

    /// The four neighbours of a cell that lie on the grid.
    pub fn get_neighborhood_of(&self, row: usize, column: usize) -> (r: Neighborhood)
        requires
            self.wf(),
            in_bounds(self.dims, row as int, column as int),
        ensures
            r.north == neighbor_spec(self.cells@, self.dims, row as int, column as int, Direction::North),
            r.south == neighbor_spec(self.cells@, self.dims, row as int, column as int, Direction::South),
            r.east == neighbor_spec(self.cells@, self.dims, row as int, column as int, Direction::East),
            r.west == neighbor_spec(self.cells@, self.dims, row as int, column as int, Direction::West),
            r.position() == 0,
    {
        let mut neighbors = Neighborhood::new();
        let rows = self.dims.rows;
        let cols = self.dims.columns;
        neighbors.north = if row + 1 < rows {
            Some((self.cells[self.cell_index(row + 1, column)], (row + 1, column)))
        } else {
            None
        };
        neighbors.south = if row >= 1 {
            Some((self.cells[self.cell_index(row - 1, column)], (row - 1, column)))
        } else {
            None
        };
        neighbors.east = if column + 1 < cols {
            Some((self.cells[self.cell_index(row, column + 1)], (row, column + 1)))
        } else {
            None
        };
        neighbors.west = if column >= 1 {
            Some((self.cells[self.cell_index(row, column - 1)], (row, column - 1)))
        } else {
            None
        };
        neighbors
    }

    /// Every cell Empty; start, goal and cursor unset; graph and solver dropped.
    pub fn clear(&mut self)
        requires
            old(self).wf(),
        ensures
            final(self).wf(),
            final(self).cells@ == Seq::new(old(self).cells@.len(), |_i: int| CellKind::Empty),
            final(self).dims == old(self).dims,
            final(self).start.is_none() && final(self).goal.is_none() && final(self).cursor.is_none(),
            final(self).graph.is_none() && final(self).solver.is_none(),
            final(self).solver_kind == old(self).solver_kind,
    {
        self.cells = filled(CellKind::Empty, self.cells.len());
        self.start = None;
        self.goal = None;
        self.cursor = None;
        self.graph = None;
        self.solver = None;
    }

    /// Every cell Wall; start, goal and cursor unset; graph and solver dropped.
    pub fn fill(&mut self)
        requires
            old(self).wf(),
        ensures
            final(self).wf(),
            final(self).cells@ == Seq::new(old(self).cells@.len(), |_i: int| CellKind::Wall),
            final(self).dims == old(self).dims,
            final(self).start.is_none() && final(self).goal.is_none() && final(self).cursor.is_none(),
            final(self).graph.is_none() && final(self).solver.is_none(),
            final(self).solver_kind == old(self).solver_kind,
    {
        self.cells = filled(CellKind::Wall, self.cells.len());
        self.start = None;
        self.goal = None;
        self.cursor = None;
        self.graph = None;
        self.solver = None;
    }

    /// Paints `kind` at a cell, or clears the cell when it already holds
    /// `kind`. Painting Start or Goal first clears the previous Start or Goal
    /// cell, and records the cell as the new one when it now holds that kind,
    /// or records none when Start or Goal was toggled off. Other kinds leave
    /// start and goal as they were. Graph and solver are dropped. Returns
    /// what the cell held.
    pub fn toggle_cell(&mut self, row: usize, column: usize, kind: CellKind) -> (r: CellKind)
        requires
            old(self).wf(),
            in_bounds(old(self).dims, row as int, column as int),
        ensures
            final(self).wf(),
            ({
                let i = index_of(old(self).dims, row as int, column as int);
                let c1 = old(self).cells@.update(i, toggled_kind(old(self).cells@[i], kind));
                let c2 = if kind == CellKind::Start && old(self).start.is_some() {
                    c1.update(idx(old(self).dims, old(self).start.unwrap()), CellKind::Empty)
                } else {
                    c1
                };
                let c3 = if kind == CellKind::Goal && old(self).goal.is_some() {
                    c2.update(idx(old(self).dims, old(self).goal.unwrap()), CellKind::Empty)
                } else {
                    c2
                };
                &&& r == old(self).cells@[i]
                &&& final(self).cells@ == c3
                &&& final(self).start == if kind != CellKind::Start {
                    old(self).start
                } else if c2[i] == CellKind::Start {
                    Some((row, column))
                } else {
                    None
                }
                &&& final(self).goal == if kind != CellKind::Goal {
                    old(self).goal
                } else if c3[i] == CellKind::Goal {
                    Some((row, column))
                } else {
                    None
                }
            }),
            final(self).dims == old(self).dims,
            final(self).cursor == old(self).cursor,
            final(self).graph.is_none() && final(self).solver.is_none(),
            final(self).solver_kind == old(self).solver_kind,
    {
        let i = self.cell_index(row, column);
        let prev_kind = self.cells[i];
        if prev_kind == kind {
            self.cells.set(i, CellKind::Empty);
        } else {
            self.cells.set(i, kind);
        }
        if kind == CellKind::Start {
            if let Some(start) = self.start {
                self.unset_cell(start.0, start.1);
            }
            if self.cells[i] == CellKind::Start {
                self.start = Some((row, column));
            } else {
                self.start = None;
            }
        }
        if kind == CellKind::Goal {
            if let Some(goal) = self.goal {
                self.unset_cell(goal.0, goal.1);
            }
            if self.cells[i] == CellKind::Goal {
                self.goal = Some((row, column));
            } else {
                self.goal = None;
            }
        }
        self.graph = None;
        self.solver = None;
        prev_kind
    }

    /// Takes every Path and Explored mark back to Empty.
    fn clear_marks(&mut self)
        requires
            old(self).wf(),
        ensures
            final(self).wf(),
            final(self).cells@ == without_marks(old(self).cells@),
            final(self).dims == old(self).dims,
            final(self).start == old(self).start,
            final(self).goal == old(self).goal,
            final(self).cursor == old(self).cursor,
            final(self).graph == old(self).graph,
            final(self).solver == old(self).solver,
            final(self).solver_kind == old(self).solver_kind,
    {
        let n = self.cells.len();
        let mut i: usize = 0;
        while i < n
            invariant
                self.wf(),
                n == self.cells@.len(),
                n == old(self).cells@.len(),
                i <= n,
                forall|k: int| 0 <= k < i ==> #[trigger] self.cells@[k] == without_marks(old(self).cells@)[k],
                forall|k: int| i <= k < n ==> #[trigger] self.cells@[k] == old(self).cells@[k],
                self.dims == old(self).dims,
                self.start == old(self).start,
                self.goal == old(self).goal,
                self.cursor == old(self).cursor,
                self.graph == old(self).graph,
                self.solver == old(self).solver,
                self.solver_kind == old(self).solver_kind,
            decreases n - i,
        {
            let k = self.cells[i];
            proof {
                assert(self.cells@[i as int] == old(self).cells@[i as int]);
                assert(without_marks(old(self).cells@)[i as int] == unmark(k));
            }
            if k == CellKind::Path || k == CellKind::Explored {
                self.cells.set(i, CellKind::Empty);
            }
            i = i + 1;
        }
        proof {
            assert(self.cells@ =~= without_marks(old(self).cells@));
        }
    }

    /// Builds the graph of the current cells (after taking Path and Explored
    /// marks back to Empty) and a fresh solver of the selected kind rooted at
    /// the start cell.
    pub fn make_graph(&mut self) -> (r: Result<(), SolveError>)
        requires
            old(self).wf(),
        ensures
            final(self).wf(),
            old(self).start.is_none() ==> r == Err::<(), SolveError>(SolveError::MissingStart)
                && *final(self) == *old(self),
            old(self).start.is_some() && old(self).goal.is_none() && old(self).solver_kind
                == SolverKind::AStar ==> r == Err::<(), SolveError>(SolveError::MissingGoal)
                && *final(self) == *old(self),
            r.is_ok() ==> old(self).start.is_some(),
            old(self).start.is_some() && (old(self).goal.is_some() || old(self).solver_kind
                != SolverKind::AStar) ==> {
                &&& r.is_ok()
                &&& final(self).cells@ == without_marks(old(self).cells@)
                &&& final(self).dims == old(self).dims
                &&& final(self).start == old(self).start
                &&& final(self).goal == old(self).goal
                &&& final(self).cursor == old(self).cursor
                &&& final(self).solver_kind == old(self).solver_kind
                &&& final(self).graph matches Some(g) && is_block_graph(
                    &g,
                    final(self).cells@,
                    final(self).dims,
                )
                &&& final(self).solver matches Some(s) && s.is_fresh(&final(self).graph.unwrap())
                    && s.kind == old(self).solver_kind && s.root == idx(
                    old(self).dims,
                    old(self).start.unwrap(),
                ) && s.goal == match old(self).goal {
                    Some(q) => idx(old(self).dims, q),
                    None => 0,
                }
            },
    {
        let start = match self.start {
            Some(s) => s,
            None => {
                return Err(SolveError::MissingStart);
            },
        };
        let goal_idx = match self.goal {
            Some(q) => self.cell_index(q.0, q.1),
            None => {
                if self.solver_kind == SolverKind::AStar {
                    return Err(SolveError::MissingGoal);
                }
                0
            },
        };
        let root = self.cell_index(start.0, start.1);
        self.clear_marks();
        let g = block_graph(&self.cells, self.dims);
        let solver = Solver::new(&g, self.solver_kind, root, goal_idx, self.dims.columns);
        self.graph = Some(g);
        self.solver = Some(solver);
        Ok(())
    }

    /// Turns every Cursor mark into Explored.
    fn demote_cursor(&mut self)
        requires
            old(self).wf(),
        ensures
            final(self).wf(),
            final(self).cells@ == demote_cursors(old(self).cells@),
            !has_cursor(final(self).cells@),
            final(self).dims == old(self).dims,
            final(self).start == old(self).start,
            final(self).goal == old(self).goal,
            final(self).cursor == old(self).cursor,
            final(self).graph == old(self).graph,
            final(self).solver == old(self).solver,
            final(self).solver_kind == old(self).solver_kind,
    {
        let n = self.cells.len();
        let mut i: usize = 0;
        while i < n
            invariant
                i <= n,
                n == self.cells@.len(),
                n == old(self).cells@.len(),
                self.wf(),
                self.dims == old(self).dims,
                self.start == old(self).start,
                self.goal == old(self).goal,
                self.cursor == old(self).cursor,
                self.graph == old(self).graph,
                self.solver == old(self).solver,
                self.solver_kind == old(self).solver_kind,
                forall|j: int| 0 <= j < i ==> #[trigger] self.cells@[j] == demote(old(self).cells@[j]),
                forall|j: int| i <= j < n ==> #[trigger] self.cells@[j] == old(self).cells@[j],
            decreases n - i,
        {
            if self.cells[i] == CellKind::Cursor {
                self.cells.set(i, CellKind::Explored);
            }
            i = i + 1;
        }
        proof {
            assert(self.cells@ =~= demote_cursors(old(self).cells@));
        }
    }

    /// The cells as `step_solve_path` sees them before it moves the solver:
    /// Start and Goal written at their cells, every Cursor mark demoted
    /// to Explored, and, when the graph has to be built first, Path and
    /// Explored marks taken back to Empty.
    pub open spec fn step_base(&self) -> Seq<CellKind> {
        let marked = self.cells@.update(idx(self.dims, self.start.unwrap()), CellKind::Start).update(
            idx(self.dims, self.goal.unwrap()),
            CellKind::Goal,
        );
        let d = demote_cursors(marked);
        if self.graph.is_none() {
            without_marks(d)
        } else {
            d
        }
    }

    pub open spec fn start_index(&self) -> int {
        idx(self.dims, self.start.unwrap())
    }

    pub open spec fn goal_index(&self) -> int {
        idx(self.dims, self.goal.unwrap())
    }

    /// The solver has walked back from the goal to the cell next to Start,
    /// and the cells show no Cursor mark.
    pub open spec fn backtrack_done(&self) -> bool {
        &&& self.start.is_some()
        &&& self.goal.is_some()
        &&& self.cursor.is_some()
        &&& self.graph.is_some()
        &&& self.solver.is_some()
        &&& self.solver.unwrap().solved
        &&& self.solver.unwrap().from@[idx(self.dims, self.cursor.unwrap())] == idx(
            self.dims,
            self.start.unwrap(),
        )
        &&& self.cells@[idx(self.dims, self.start.unwrap())] == CellKind::Start
        &&& self.cells@[idx(self.dims, self.goal.unwrap())] == CellKind::Goal
        &&& !has_cursor(self.cells@)
    }

    /// One animation step of solving. Writes Start and Goal at their cells,
    /// demotes the Cursor mark to Explored and builds the graph if there is
    /// none. A solver that has reached the goal then walks one back-pointer
    /// from the cursor and marks that cell Path; otherwise the solver expands
    /// one node and marks it Cursor. Returns false when there is nothing left
    /// to do: no start or goal, nothing left to expand, or the walk back has
    /// reached Start.
    #[verifier::rlimit(80)]
    pub fn step_solve_path(&mut self) -> (r: bool)
        requires
            old(self).wf(),
        ensures
            final(self).wf(),
            final(self).dims == old(self).dims,
            final(self).start == old(self).start,
            final(self).goal == old(self).goal,
            final(self).solver_kind == old(self).solver_kind,
            old(self).start.is_none() || old(self).goal.is_none() ==> !r && *final(self) == *old(
                self,
            ),
            old(self).backtrack_done() ==> !r && final(self).cells@ == old(self).cells@
                && final(self).backtrack_done(),
            old(self).start.is_some() && old(self).goal.is_some() ==> final(self).graph.is_some()
                && final(self).solver.is_some(),
            old(self).start.is_some() && old(self).goal.is_some() && old(self).graph.is_none() ==> {
                &&& r
                &&& final(self).cells@ == old(self).step_base().update(
                    old(self).start_index(),
                    CellKind::Cursor,
                )
                &&& is_block_graph(&final(self).graph.unwrap(), old(self).step_base(), old(self).dims)
                &&& final(self).solver.unwrap().closed@ =~= Seq::new(
                    old(self).cells@.len(),
                    |j: int| j == old(self).start_index(),
                )
                &&& final(self).solver.unwrap().solved == (old(self).start_index()
                    == old(self).goal_index())
                &&& final(self).cursor == if old(self).start_index() == old(self).goal_index() {
                    old(self).goal
                } else {
                    old(self).cursor
                }
            },
            old(self).start.is_some() && old(self).goal.is_some() && old(self).graph.is_some()
                && old(self).solver.unwrap().solved ==> {
                let k = old(self).solver.unwrap().from@[idx(
                    old(self).dims,
                    old(self).cursor.unwrap(),
                )] as int;
                &&& final(self).graph == old(self).graph
                &&& final(self).solver == old(self).solver
                &&& r == (k != old(self).start_index())
                &&& r ==> final(self).cells@ == old(self).step_base().update(k, CellKind::Path)
                &&& r ==> (final(self).cursor matches Some(c) && idx(old(self).dims, c) == k)
                &&& !r ==> final(self).cells@ == old(self).step_base()
                &&& !r ==> final(self).cursor == old(self).cursor
                &&& !r && old(self).start_index() != old(self).goal_index() ==> final(self).backtrack_done()
            },
            old(self).start.is_some() && old(self).goal.is_some() && old(self).graph.is_some()
                && !old(self).solver.unwrap().solved ==> {
                let s0 = old(self).solver.unwrap();
                let s1 = final(self).solver.unwrap();
                &&& final(self).graph == old(self).graph
                &&& r == !s0.exhausted(&old(self).graph.unwrap())
                &&& !r ==> final(self).cells@ == old(self).step_base()
                &&& r ==> exists|k: int|
                    0 <= k < old(self).cells@.len() && s0.is_open(k) && final(self).cells@
                        == old(self).step_base().update(k, CellKind::Cursor) && s1.closed@
                        == s0.closed@.update(k, true) && s1.solved == (k == old(self).goal_index())
                        && final(self).cursor == if k == old(self).goal_index() {
                        old(self).goal
                    } else {
                        old(self).cursor
                    }
            },
    {
        let start = match self.start {
            Some(s) => s,
            None => {
                return false;
            },
        };
        let goal = match self.goal {
            Some(q) => q,
            None => {
                return false;
            },
        };
        let ghost was_done = self.backtrack_done();
        let ghost before_marks = *self;
        proof {
            lemma_index_in_bounds(self.dims, start.0 as int, start.1 as int);
            lemma_index_in_bounds(self.dims, goal.0 as int, goal.1 as int);
        }
        self.write_cell(start.0, start.1, CellKind::Start);
        proof {
            if was_done {
                assert(self.cells@ =~= before_marks.cells@);
            }
        }
        self.write_cell(goal.0, goal.1, CellKind::Goal);
        proof {
            if was_done {
                assert(self.cells@ =~= before_marks.cells@);
            }
        }
        self.demote_cursor();
        proof {
            if was_done {
                assert(self.cells@ == before_marks.cells@);
            }
        }
        let had_graph = self.graph.is_some();
        if !had_graph {
            let built = self.make_graph();
        proof {
            assert(built.is_ok());
        }
            proof {
                assert(built.is_ok());
            }
        }
        let cols = self.dims.columns;
        let start_idx = self.cell_index(start.0, start.1);
        let goal_idx = self.cell_index(goal.0, goal.1);
        let ghost base = self.cells@;
        let cursor_idx = match self.cursor {
            Some(c) => self.cell_index(c.0, c.1),
            None => 0,
        };
        let mut solver = match self.solver.take() {
            Some(s) => s,
            None => {
                return false;
            },
        };
        let ghost s0 = solver;
        proof {
            if !had_graph {
                assert(s0.is_open(start_idx as int));
            }
        }
        if solver.is_solved() {
            let from = solver.from_index_of(cursor_idx);
            self.solver = Some(solver);
            if from == start_idx {
                return false;
            }
            proof {
                lemma_coords_of(self.dims, from as int);
            }
            let row = from / cols;
            let col = from % cols;
            self.cursor = Some((row, col));
            self.write_cell(row, col, CellKind::Path);
            return true;
        }
        let step = match &self.graph {
            Some(graph) => solver.next(graph),
            None => None,
        };
        match step {
            None => {
                self.solver = Some(solver);
                false
            },
            Some((i, _)) => {
                proof {
                    lemma_coords_of(self.dims, i as int);
                    if !had_graph {
                        assert(s0.discovered@[i as int]);
                        assert(i == start_idx);
                    }
                }
                let row = i / cols;
                let col = i % cols;
                if i == goal_idx {
                    let ghost unsolved = solver;
                    solver.set_solved();
                    proof {
                        crate::search::lemma_wf_solved(&self.graph.unwrap(), unsolved, solver);
                    }
                    self.cursor = Some((row, col));
                }
                self.solver = Some(solver);
                self.write_cell(row, col, CellKind::Cursor);
                true
            },
        }
    }

    /// Marks Path on every cell strictly between the two ends of `path`.
    fn paint_path(&mut self, path: &Vec<usize>)
        requires
            old(self).wf(),
            path@.len() > 0,
            forall|k: int| 0 <= k < path@.len() ==> #[trigger] path@[k] < old(self).cells@.len(),
        ensures
            final(self).wf(),
            painted(old(self).cells@, path@, final(self).cells@),
            final(self).dims == old(self).dims,
            final(self).start == old(self).start,
            final(self).goal == old(self).goal,
            final(self).cursor == old(self).cursor,
            final(self).graph == old(self).graph,
            final(self).solver == old(self).solver,
            final(self).solver_kind == old(self).solver_kind,
    {
        let cols = self.dims.columns;
        let last = path.len() - 1;
        let mut i: usize = 1;
        while i < last
            invariant
                self.wf(),
                1 <= i,
                last == path@.len() - 1,
                i <= last || i == 1,
                cols == self.dims.columns,
                forall|k: int| 0 <= k < path@.len() ==> #[trigger] path@[k] < old(self).cells@.len(),
                self.cells@.len() == old(self).cells@.len(),
                forall|k: int|
                    0 <= k < old(self).cells@.len() ==> #[trigger] self.cells@[k] == if exists|t: int|
                        1 <= t < i && path@[t] == k {
                        CellKind::Path
                    } else {
                        old(self).cells@[k]
                    },
                self.dims == old(self).dims,
                self.start == old(self).start,
                self.goal == old(self).goal,
                self.cursor == old(self).cursor,
                self.graph == old(self).graph,
                self.solver == old(self).solver,
                self.solver_kind == old(self).solver_kind,
            decreases last - i,
        {
            let node = path[i];
            proof {
                lemma_coords_of(self.dims, node as int);
            }
            let ghost prev = self.cells@;
            self.write_cell(node / cols, node % cols, CellKind::Path);
            proof {
                assert forall|k: int|
                    0 <= k < old(self).cells@.len() implies #[trigger] self.cells@[k] == if exists|t: int|
                        1 <= t < i + 1 && path@[t] == k {
                        CellKind::Path
                    } else {
                        old(self).cells@[k]
                    } by {
                    if k == node {
                        assert(1 <= i < i + 1 && path@[i as int] == k);
                    } else {
                        assert(prev[k] == self.cells@[k]);
                        if exists|t: int| 1 <= t < i + 1 && path@[t] == k {
                            let t = choose|t: int| 1 <= t < i + 1 && path@[t] == k;
                            assert(t < i);
                        }
                    }
                }
            }
            i = i + 1;
        }
        proof {
            assert forall|k: int| 0 <= k < old(self).cells@.len() implies #[trigger] self.cells@[k] == if exists|t: int|
                1 <= t < path@.len() - 1 && path@[t] == k {
                CellKind::Path
            } else {
                old(self).cells@[k]
            } by {
                if exists|t: int| 1 <= t < path@.len() - 1 && path@[t] == k {
                    let t = choose|t: int| 1 <= t < path@.len() - 1 && path@[t] == k;
                    assert(1 <= t < i && path@[t] == k);
                }
                if exists|t: int| 1 <= t < i && path@[t] == k {
                    let t = choose|t: int| 1 <= t < i && path@[t] == k;
                    assert(1 <= t < path@.len() - 1 && path@[t] == k);
                }
            }
        }
    }

    /// Solves in one go: builds the graph, finds a path from Start to Goal
    /// with the selected solver, marks its cells between the two ends Path,
    /// and drops the graph and solver. Does nothing without a start or a goal.
    pub fn solve_path(&mut self)
        requires
            old(self).wf(),
        ensures
            final(self).wf(),
            final(self).dims == old(self).dims,
            final(self).start == old(self).start,
            final(self).goal == old(self).goal,
            final(self).cursor == old(self).cursor,
            final(self).solver_kind == old(self).solver_kind,
            old(self).start.is_none() || old(self).goal.is_none() ==> *final(self) == *old(self),
            old(self).start.is_some() && old(self).goal.is_some() ==> {
                let c0 = without_marks(old(self).cells@);
                &&& final(self).graph.is_none()
                &&& final(self).solver.is_none()
                &&& block_reachable(c0, old(self).dims, old(self).start_index(), old(self).goal_index())
                    ==> exists|p: Seq<usize>|
                    block_path(c0, old(self).dims, p) && Graph::is_simple(p) && p[0] == old(self).start_index() && p.last()
                        == old(self).goal_index() && painted(c0, p, final(self).cells@)
                &&& !block_reachable(c0, old(self).dims, old(self).start_index(), old(self).goal_index())
                    ==> final(self).cells@ == c0
            },
    {
        let goal = match self.goal {
            Some(q) => q,
            None => {
                return;
            },
        };
        if self.start.is_none() {
            return;
        }
        let built = self.make_graph();
        proof {
            assert(built.is_ok());
        }
        let goal_idx = self.cell_index(goal.0, goal.1);
        let ghost c0 = self.cells@;
        let ghost dims = self.dims;
        let found = match self.solver.take() {
            None => None,
            Some(mut solver) => match &self.graph {
                Some(g) => {
                    let ghost gg = *g;
                    let ghost s0 = solver;
                    let r = solver.path_to(g, goal_idx);
                    proof {
                        assert(!s0.closed@[goal_idx as int]);
                        if r.is_some() {
                            lemma_block_graph_paths(g, c0, dims, r.unwrap()@);
                        }
                        if block_reachable(c0, dims, s0.root as int, goal_idx as int) {
                            let p = choose|p: Seq<usize>|
                                #[trigger] block_path(c0, dims, p) && p[0] == s0.root && p.last() == goal_idx;
                            lemma_block_graph_paths(g, c0, dims, p);
                            assert(g.is_path(p));
                        }
                        if g.reachable(s0.root as int, goal_idx as int) {
                            let p = choose|p: Seq<usize>|
                                #[trigger] g.is_path(p) && p[0] == s0.root && p.last() == goal_idx;
                            lemma_block_graph_paths(g, c0, dims, p);
                            assert(block_path(c0, dims, p));
                        }
                    }
                    r
                },
                None => None,
            },
        };
        self.graph = None;
        if let Some(path) = found {
            self.paint_path(&path);
        }
    }
}

impl Grid for BlockGrid {
    open spec fn grid_wf(&self) -> bool {
        self.wf()
    }

    open spec fn cells_view(&self) -> Seq<CellKind> {
        self.cells@
    }

    open spec fn dims_view(&self) -> Dimensions {
        self.dims
    }

    fn dims(&self) -> (r: Dimensions) {
        BlockGrid::dims(self)
    }

    fn get_cell(&self, row: usize, column: usize) -> (r: CellKind) {
        BlockGrid::get_cell(self, row, column)
    }

    fn set_cell(&mut self, row: usize, column: usize, kind: CellKind) -> (r: CellKind) {
        BlockGrid::set_cell(self, row, column, kind)
    }

    fn get_neighborhood_of(&self, row: usize, column: usize) -> (r: Neighborhood) {
        BlockGrid::get_neighborhood_of(self, row, column)
    }

    fn set_neighbor_of(&mut self, coords: (usize, usize), direction: Direction, kind: CellKind) -> (r: (
        usize,
        usize,
    )) {
        BlockGrid::set_neighbor_of(self, coords, direction, kind)
    }

    fn clear(&mut self) {
        BlockGrid::clear(self)
    }

    fn fill(&mut self) {
        BlockGrid::fill(self)
    }

    fn solve_path(&mut self) {
        BlockGrid::solve_path(self)
    }

    fn step_solve_path(&mut self) -> (r: bool) {
        BlockGrid::step_solve_path(self)
    }
}

} // verus!
