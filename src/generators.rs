//! Maze generators and the grid they carve.
use crate::grids::block_grid::BlockGrid;
use crate::grids::wall_grid::{adjacent, passage, WallGrid};
use crate::grids::{
    in_bounds, index_of, neighbor_spec, CellKind, Dimensions, Direction, GridKind, Neighborhood,
    column_delta, row_delta,
};
use vstd::prelude::*;

pub mod aldous_broder;
pub mod prim;
pub mod division;
pub mod walks;

verus! {

/// What the steppable generators share: one unit of work per step, a copy of
/// the cells after a step, running to completion, and whether they are done.
pub trait Generator {
    spec fn gen_wf(&self) -> bool;

    /// The cells the generator has carved so far.
    spec fn carved(&self) -> Seq<CellKind>;

    spec fn finished(&self) -> bool;

    fn step_generation(&mut self)
        requires
            old(self).gen_wf(),
        ensures
            final(self).gen_wf(),
    ;

    fn next_step(&mut self) -> (r: Vec<CellKind>)
        requires
            old(self).gen_wf(),
        ensures
            final(self).gen_wf(),
            r@ == final(self).carved(),
    ;

    fn generate_maze(&mut self) -> (r: Vec<CellKind>)
        requires
            old(self).gen_wf(),
        ensures
            final(self).gen_wf(),
            r@ == final(self).carved(),
            old(self).finished() ==> final(self).finished(),
    ;

    fn is_done(&self) -> (r: bool)
        ensures
            r == self.finished(),
    ;
}

/// Which steppable generator a driver builds.
#[derive(Debug, Clone, Copy, PartialEq, Eq, Structural)]
pub enum GeneratorKind {
    AldousBroder,
    RandPrims,
}

/// Relies on `rand::Rng::gen_range` on `rand::thread_rng()`: a value drawn
/// from `0..n`; it panics only on an empty range.
#[verifier::external_body]
pub(crate) fn random_below(n: usize) -> (r: usize)
    requires
        n > 0,
    ensures
        r < n,
{
    rand::Rng::gen_range(&mut rand::thread_rng(), 0..n)
}

/// The grid a generator carves, of either variant.
pub enum MazeGrid {
    Block(BlockGrid),
    Wall(WallGrid),
}

impl MazeGrid {
    pub open spec fn wf(&self) -> bool {
        match self {
            MazeGrid::Block(g) => g.wf(),
            MazeGrid::Wall(g) => g.wf(),
        }
    }

    pub open spec fn cells_view(&self) -> Seq<CellKind> {
        match self {
            MazeGrid::Block(g) => g.cells@,
            MazeGrid::Wall(g) => g.cells@,
        }
    }

    pub open spec fn dims_view(&self) -> Dimensions {
        match self {
            MazeGrid::Block(g) => g.dims,
            MazeGrid::Wall(g) => g.dims,
        }
    }

    /// Whether a passage joins two cells; a block grid has none.
    pub open spec fn passage_view(&self, p: (usize, usize), q: (usize, usize)) -> bool {
        match self {
            MazeGrid::Block(_) => false,
            MazeGrid::Wall(g) => passage(g.open_north@, g.open_east@, g.dims, p, q),
        }
    }

    pub open spec fn kind_view(&self) -> GridKind {
        match self {
            MazeGrid::Block(_) => GridKind::Block,
            MazeGrid::Wall(_) => GridKind::Wall,
        }
    }

    /// A grid of the given kind with every cell Empty.
    pub fn with_dims(rows: usize, columns: usize, kind: GridKind) -> (r: MazeGrid)
        requires
            rows * columns <= usize::MAX,
        ensures
            r.wf(),
            r.kind_view() == kind,
            r.dims_view() == (Dimensions { rows, columns }),
            r.cells_view() == Seq::new((rows * columns) as nat, |_i: int| CellKind::Empty),
    {
        match kind {
            GridKind::Block => MazeGrid::Block(BlockGrid::with_dims(rows, columns)),
            GridKind::Wall => MazeGrid::Wall(WallGrid::with_dims(rows, columns)),
        }
    }

    pub fn dims(&self) -> (r: Dimensions)
        ensures
            r == self.dims_view(),
    {
        match self {
            MazeGrid::Block(g) => g.dims,
            MazeGrid::Wall(g) => g.dims,
        }
    }

    /// A block grid turns to all Wall; a wall grid closes every passage and
    /// keeps its cells.
    pub fn fill(&mut self)
        requires
            old(self).wf(),
        ensures
            final(self).wf(),
            final(self).kind_view() == old(self).kind_view(),
            final(self).dims_view() == old(self).dims_view(),
            final(self).cells_view() == if old(self).kind_view() == GridKind::Block {
                Seq::new(old(self).cells_view().len(), |_i: int| CellKind::Wall)
            } else {
                old(self).cells_view()
            },
    {
        match self {
            MazeGrid::Block(g) => g.fill(),
            MazeGrid::Wall(g) => g.fill(),
        }
    }

    pub fn set_cell(&mut self, row: usize, column: usize, kind: CellKind) -> (r: CellKind)
        requires
            old(self).wf(),
            in_bounds(old(self).dims_view(), row as int, column as int),
        ensures
            final(self).wf(),
            final(self).kind_view() == old(self).kind_view(),
            final(self).dims_view() == old(self).dims_view(),
            r == old(self).cells_view()[index_of(old(self).dims_view(), row as int, column as int)],
            final(self).cells_view() == old(self).cells_view().update(
                index_of(old(self).dims_view(), row as int, column as int),
                kind,
            ),
            forall|p: (usize, usize), q: (usize, usize)|
                #[trigger] final(self).passage_view(p, q) == old(self).passage_view(p, q),
    {
        match self {
            MazeGrid::Block(g) => g.set_cell(row, column, kind),
            MazeGrid::Wall(g) => g.set_cell(row, column, kind),
        }
    }

    pub fn get_neighborhood_of(&self, row: usize, column: usize) -> (r: Neighborhood)
        requires
            self.wf(),
            in_bounds(self.dims_view(), row as int, column as int),
        ensures
            r.north == neighbor_spec(self.cells_view(), self.dims_view(), row as int, column as int, Direction::North),
            r.south == neighbor_spec(self.cells_view(), self.dims_view(), row as int, column as int, Direction::South),
            r.east == neighbor_spec(self.cells_view(), self.dims_view(), row as int, column as int, Direction::East),
            r.west == neighbor_spec(self.cells_view(), self.dims_view(), row as int, column as int, Direction::West),
            r.position() == 0,
    {
        match self {
            MazeGrid::Block(g) => g.get_neighborhood_of(row, column),
            MazeGrid::Wall(g) => g.get_neighborhood_of(row, column),
        }
    }

    pub fn set_neighbor_of(&mut self, coords: (usize, usize), direction: Direction, kind: CellKind) -> (r: (
        usize,
        usize,
    ))
        requires
            old(self).wf(),
            direction != Direction::Sentinel,
            in_bounds(
                old(self).dims_view(),
                coords.0 + row_delta(direction),
                coords.1 + column_delta(direction),
            ),
        ensures
            final(self).wf(),
            final(self).kind_view() == old(self).kind_view(),
            final(self).dims_view() == old(self).dims_view(),
            r.0 == coords.0 + row_delta(direction),
            r.1 == coords.1 + column_delta(direction),
            final(self).cells_view() == old(self).cells_view().update(
                index_of(old(self).dims_view(), r.0 as int, r.1 as int),
                kind,
            ),
    {
        match self {
            MazeGrid::Block(g) => g.set_neighbor_of(coords, direction, kind),
            MazeGrid::Wall(g) => g.set_neighbor_of(coords, direction, kind),
        }
    }

    /// Opens the passage between two adjacent cells of a wall grid; a block
    /// grid has no passages and stays as it is.
    pub fn clear_wall_between(&mut self, one: (usize, usize), two: (usize, usize))
        requires
            old(self).wf(),
            in_bounds(old(self).dims_view(), one.0 as int, one.1 as int),
            in_bounds(old(self).dims_view(), two.0 as int, two.1 as int),
            adjacent(one, two),
        ensures
            final(self).wf(),
            final(self).kind_view() == old(self).kind_view(),
            final(self).dims_view() == old(self).dims_view(),
            final(self).cells_view() == old(self).cells_view(),
            final(self).kind_view() == GridKind::Wall ==> final(self).passage_view(one, two)
                && final(self).passage_view(two, one),
            forall|p: (usize, usize), q: (usize, usize)|
                in_bounds(old(self).dims_view(), p.0 as int, p.1 as int) && in_bounds(old(self).dims_view(), q.0 as int, q.1 as int)
                    && !((p == one && q == two) || (p == two && q == one)) ==> #[trigger] final(self).passage_view(p, q)
                    == old(self).passage_view(p, q),
    {
        match self {
            MazeGrid::Block(_) => {},
            MazeGrid::Wall(g) => g.clear_wall_between(one, two),
        }
    }

    pub fn get_cell_at(&self, row: usize, column: usize) -> (r: CellKind)
        requires
            self.wf(),
            in_bounds(self.dims_view(), row as int, column as int),
        ensures
            r == self.cells_view()[index_of(self.dims_view(), row as int, column as int)],
    {
        match self {
            MazeGrid::Block(g) => g.get_cell(row, column),
            MazeGrid::Wall(g) => g.get_cell(row, column),
        }
    }

    /// A copy of the cells.
    pub fn snapshot(&self) -> (r: Vec<CellKind>)
        ensures
            r@ == self.cells_view(),
    {
        let cells = match self {
            MazeGrid::Block(g) => &g.cells,
            MazeGrid::Wall(g) => &g.cells,
        };
        let mut r: Vec<CellKind> = Vec::new();
        let mut i: usize = 0;
        while i < cells.len()
            invariant
                i <= cells@.len(),
                cells@ == self.cells_view(),
                r@ == cells@.subrange(0, i as int),
            decreases cells@.len() - i,
        {
            r.push(cells[i]);
            i = i + 1;
            proof {
                assert(r@ =~= cells@.subrange(0, i as int));
            }
        }
        proof {
            assert(r@ =~= cells@);
        }
        r
    }
}

} // verus!
