//! Cell kinds, directions, dimensions and neighbourhoods shared by both grid
//! variants.
use vstd::prelude::*;

pub mod block_grid;
pub mod wall_grid;

verus! {

/// Which passability model a grid uses.
#[derive(Debug, Clone, Copy, PartialEq, Eq, Structural)]
pub enum GridKind {
    Block,
    Wall,
}

/// Number of rows and columns of a grid.
#[derive(Debug, Clone, Copy, PartialEq, Eq, Structural)]
pub struct Dimensions {
    pub rows: usize,
    pub columns: usize,
}

/// The four cardinal directions. `North` increases the row, `East` increases
/// the column. `Sentinel` only marks the end of an enumeration.
#[derive(Debug, Clone, Copy, PartialEq, Eq, Structural)]
pub enum Direction {
    North,
    South,
    East,
    West,
    Sentinel,
}

/// What a cell holds.
#[derive(Debug, Clone, Copy, PartialEq, Eq, Structural)]
pub enum CellKind {
    Empty,
    Wall,
    Start,
    Goal,
    Path,
    Explored,
    Cursor,
}

/// Which search strategy the solver uses.
#[derive(Debug, Clone, Copy, PartialEq, Eq, Structural)]
pub enum SolverKind {
    DFS,
    BFS,
    AStar,
}

/// The kind and the coordinates of a neighbouring cell.
pub type Neighbor = (CellKind, (usize, usize));

/// The opposite of a direction; `Sentinel` stays `Sentinel`.
pub open spec fn opposite(d: Direction) -> Direction {
    match d {
        Direction::North => Direction::South,
        Direction::South => Direction::North,
        Direction::East => Direction::West,
        Direction::West => Direction::East,
        Direction::Sentinel => Direction::Sentinel,
    }
}

/// The direction with the given position in the order North, South, East, West.
pub open spec fn direction_at(i: int) -> Direction {
    if i == 0 {
        Direction::North
    } else if i == 1 {
        Direction::South
    } else if i == 2 {
        Direction::East
    } else if i == 3 {
        Direction::West
    } else {
        Direction::Sentinel
    }
}

/// Row offset of a step in a direction.
pub open spec fn row_delta(d: Direction) -> int {
    match d {
        Direction::North => 1,
        Direction::South => -1,
        _ => 0,
    }
}

/// Column offset of a step in a direction.
pub open spec fn column_delta(d: Direction) -> int {
    match d {
        Direction::East => 1,
        Direction::West => -1,
        _ => 0,
    }
}

impl Direction {
    pub fn neg(self) -> (r: Direction)
        ensures
            r == opposite(self),
    {
        match self {
            Direction::North => Direction::South,
            Direction::South => Direction::North,
            Direction::East => Direction::West,
            Direction::West => Direction::East,
            Direction::Sentinel => Direction::Sentinel,
        }
    }

    pub fn from(dir: usize) -> (r: Direction)
        requires
            dir < 4,
        ensures
            r == direction_at(dir as int),
    {
        match dir {
            0 => Direction::North,
            1 => Direction::South,
            2 => Direction::East,
            _ => Direction::West,
        }
    }
}

/// The cell kind with the given code, in declaration order.
pub open spec fn kind_of_code(code: int) -> CellKind {
    if code == 0 {
        CellKind::Empty
    } else if code == 1 {
        CellKind::Wall
    } else if code == 2 {
        CellKind::Start
    } else if code == 3 {
        CellKind::Goal
    } else if code == 4 {
        CellKind::Path
    } else if code == 5 {
        CellKind::Explored
    } else {
        CellKind::Cursor
    }
}

impl CellKind {
    pub fn from(code: u8) -> (r: CellKind)
        requires
            code < 7,
        ensures
            r == kind_of_code(code as int),
    {
        match code {
            0 => CellKind::Empty,
            1 => CellKind::Wall,
            2 => CellKind::Start,
            3 => CellKind::Goal,
            4 => CellKind::Path,
            5 => CellKind::Explored,
            _ => CellKind::Cursor,
        }
    }
}

/// Row-major index of a cell.
pub open spec fn index_of(dims: Dimensions, row: int, column: int) -> int {
    row * dims.columns + column
}

pub open spec fn in_bounds(dims: Dimensions, row: int, column: int) -> bool {
    0 <= row < dims.rows && 0 <= column < dims.columns
}

/// A cell on the outer ring of the grid.
pub open spec fn on_border(dims: Dimensions, row: int, column: int) -> bool {
    row == 0 || row == dims.rows - 1 || column == 0 || column == dims.columns - 1
}

/// The neighbour of `(row, column)` in direction `d`, if it lies on the grid.
pub open spec fn neighbor_spec(
    cells: Seq<CellKind>,
    dims: Dimensions,
    row: int,
    column: int,
    d: Direction,
) -> Option<Neighbor> {
    let r = row + row_delta(d);
    let c = column + column_delta(d);
    if d != Direction::Sentinel && in_bounds(dims, r, c) {
        Some((cells[index_of(dims, r, c)], (r as usize, c as usize)))
    } else {
        None
    }
}

pub proof fn lemma_index_in_bounds(dims: Dimensions, row: int, column: int)
    requires
        in_bounds(dims, row, column),
    ensures
        0 <= index_of(dims, row, column) < dims.rows * dims.columns,
        index_of(dims, row, column) / (dims.columns as int) == row,
        index_of(dims, row, column) % (dims.columns as int) == column,
{
    assert(0 <= row * dims.columns + column < dims.rows * dims.columns) by (nonlinear_arith)
        requires
            0 <= row < dims.rows,
            0 <= column < dims.columns,
    ;
    vstd::arithmetic::div_mod::lemma_fundamental_div_mod_converse(
        row * dims.columns + column,
        dims.columns as int,
        row,
        column,
    );
}

/// Up to four neighbouring cells, enumerated North, South, East, West.
#[derive(Debug, Clone, Copy)]
pub struct Neighborhood {
    pub north: Option<Neighbor>,
    pub south: Option<Neighbor>,
    pub east: Option<Neighbor>,
    pub west: Option<Neighbor>,
    pub counter: Direction,
}

impl Neighborhood {
    /// The slot for the direction at position `i`.
    pub open spec fn slot(&self, i: int) -> Option<Neighbor> {
        if i == 0 {
            self.north
        } else if i == 1 {
            self.south
        } else if i == 2 {
            self.east
        } else if i == 3 {
            self.west
        } else {
            None
        }
    }

    /// The present neighbours at positions `i` and later, each with its direction.
    pub open spec fn entries_from(&self, i: int) -> Seq<(Neighbor, Direction)>
        decreases 4 - i,
    {
        if i >= 4 || i < 0 {
            Seq::empty()
        } else {
            let rest = self.entries_from(i + 1);
            match self.slot(i) {
                Some(n) => seq![(n, direction_at(i))].add(rest),
                None => rest,
            }
        }
    }

    /// All present neighbours in enumeration order.
    pub open spec fn entries(&self) -> Seq<(Neighbor, Direction)> {
        self.entries_from(0)
    }

    /// Position of the enumeration: 0 to 3 for the next direction to look at,
    /// 4 once the enumeration has ended.
    pub open spec fn position(&self) -> int {
        match self.counter {
            Direction::North => 0,
            Direction::South => 1,
            Direction::East => 2,
            Direction::West => 3,
            Direction::Sentinel => 4,
        }
    }

    /// What the enumeration has still to hand out.
    pub open spec fn pending(&self) -> Seq<(Neighbor, Direction)> {
        self.entries_from(self.position())
    }

    pub open spec fn same_slots(&self, other: &Neighborhood) -> bool {
        self.north == other.north && self.south == other.south && self.east == other.east
            && self.west == other.west
    }

    proof fn lemma_unfold(&self, i: int)
        requires
            0 <= i < 4,
        ensures
            self.slot(i).is_none() ==> self.entries_from(i) == self.entries_from(i + 1),
            self.slot(i).is_some() ==> {
                &&& self.entries_from(i).len() > 0
                &&& self.entries_from(i)[0] == (self.slot(i).unwrap(), direction_at(i))
                &&& self.entries_from(i).drop_first() == self.entries_from(i + 1)
            },
    {
        if let Some(n) = self.slot(i) {
            let rest = self.entries_from(i + 1);
            assert((seq![(n, direction_at(i))].add(rest)).drop_first() =~= rest);
        }
    }

    proof fn lemma_same_entries(&self, other: &Neighborhood, i: int)
        requires
            self.same_slots(other),
        ensures
            self.entries_from(i) == other.entries_from(i),
        decreases 4 - i,
    {
        if 0 <= i < 4 {
            self.lemma_same_entries(other, i + 1);
        }
    }

    pub fn new() -> (r: Neighborhood)
        ensures
            r.north.is_none(),
            r.south.is_none(),
            r.east.is_none(),
            r.west.is_none(),
            r.position() == 0,
    {
        Neighborhood {
            north: None,
            south: None,
            east: None,
            west: None,
            counter: Direction::North,
        }
    }

    /// Hands out the next present neighbour. After the last one it returns
    /// `None` once and ends the enumeration; a call on an ended enumeration
    /// returns `None` and starts it over.
    pub fn next(&mut self) -> (r: Option<(Neighbor, Direction)>)
        ensures
            final(self).same_slots(old(self)),
            old(self).position() == 4 ==> r.is_none() && final(self).position() == 0,
            old(self).position() < 4 ==> {
                &&& old(self).pending().len() == 0 ==> r.is_none() && final(self).position()
                    == 4
                &&& old(self).pending().len() > 0 ==> r == Some(old(self).pending()[0])
                    && final(self).pending() == old(self).pending().drop_first()
            },
    {
        loop
            invariant
                self.same_slots(old(self)),
                old(self).position() < 4 ==> self.pending() == old(self).pending(),
                old(self).position() == 4 ==> self.position() == 4,
                old(self).position() < 4 ==> self.position() < 4,
                old(self).position() <= self.position(),
            decreases 4 - self.position(),
        {
            let ghost before = *self;
            proof {
                if self.position() < 4 {
                    self.lemma_unfold(self.position());
                } else {
                    assert(self.entries_from(4).len() == 0);
                }
            }
            match self.counter {
                Direction::North => {
                    self.counter = Direction::South;
                    proof { self.lemma_same_entries(&before, 1); }
                    if let Some(north) = self.north {
                        return Some((north, Direction::North));
                    }
                },
                Direction::South => {
                    self.counter = Direction::East;
                    proof { self.lemma_same_entries(&before, 2); }
                    if let Some(south) = self.south {
                        return Some((south, Direction::South));
                    }
                },
                Direction::East => {
                    self.counter = Direction::West;
                    proof { self.lemma_same_entries(&before, 3); }
                    if let Some(east) = self.east {
                        return Some((east, Direction::East));
                    }
                },
                Direction::West => {
                    self.counter = Direction::Sentinel;
                    proof { self.lemma_same_entries(&before, 4); }
                    return if let Some(west) = self.west {
                        Some((west, Direction::West))
                    } else {
                        None
                    };
                },
                Direction::Sentinel => {
                    self.counter = Direction::North;
                    return None;
                },
            }
        }
    }
}

/// What both grid variants offer: cell access, neighbourhoods, clearing and
/// filling, and solving from Start to Goal.
pub trait Grid {
    spec fn grid_wf(&self) -> bool;

    spec fn cells_view(&self) -> Seq<CellKind>;

    spec fn dims_view(&self) -> Dimensions;

    fn dims(&self) -> (r: Dimensions)
        ensures
            r == self.dims_view(),
    ;

    fn get_cell(&self, row: usize, column: usize) -> (r: CellKind)
        requires
            self.grid_wf(),
            in_bounds(self.dims_view(), row as int, column as int),
        ensures
            r == self.cells_view()[index_of(self.dims_view(), row as int, column as int)],
    ;

    fn set_cell(&mut self, row: usize, column: usize, kind: CellKind) -> (r: CellKind)
        requires
            old(self).grid_wf(),
            in_bounds(old(self).dims_view(), row as int, column as int),
        ensures
            final(self).grid_wf(),
            final(self).dims_view() == old(self).dims_view(),
            r == old(self).cells_view()[index_of(old(self).dims_view(), row as int, column as int)],
            final(self).cells_view() == old(self).cells_view().update(
                index_of(old(self).dims_view(), row as int, column as int),
                kind,
            ),
    ;

    fn get_neighborhood_of(&self, row: usize, column: usize) -> (r: Neighborhood)
        requires
            self.grid_wf(),
            in_bounds(self.dims_view(), row as int, column as int),
        ensures
            r.north == neighbor_spec(self.cells_view(), self.dims_view(), row as int, column as int, Direction::North),
            r.south == neighbor_spec(self.cells_view(), self.dims_view(), row as int, column as int, Direction::South),
            r.east == neighbor_spec(self.cells_view(), self.dims_view(), row as int, column as int, Direction::East),
            r.west == neighbor_spec(self.cells_view(), self.dims_view(), row as int, column as int, Direction::West),
            r.position() == 0,
    ;

    fn set_neighbor_of(&mut self, coords: (usize, usize), direction: Direction, kind: CellKind) -> (r: (
        usize,
        usize,
    ))
        requires
            old(self).grid_wf(),
            direction != Direction::Sentinel,
            in_bounds(
                old(self).dims_view(),
                coords.0 + row_delta(direction),
                coords.1 + column_delta(direction),
            ),
        ensures
            final(self).grid_wf(),
            final(self).dims_view() == old(self).dims_view(),
            r.0 == coords.0 + row_delta(direction),
            r.1 == coords.1 + column_delta(direction),
            final(self).cells_view() == old(self).cells_view().update(
                index_of(old(self).dims_view(), r.0 as int, r.1 as int),
                kind,
            ),
    ;

    /// Every cell Empty.
    fn clear(&mut self)
        requires
            old(self).grid_wf(),
        ensures
            final(self).grid_wf(),
            final(self).dims_view() == old(self).dims_view(),
            final(self).cells_view() == Seq::new(old(self).cells_view().len(), |_i: int| CellKind::Empty),
    ;

    /// Blocks every way through the grid.
    fn fill(&mut self)
        requires
            old(self).grid_wf(),
        ensures
            final(self).grid_wf(),
            final(self).dims_view() == old(self).dims_view(),
    ;

    fn solve_path(&mut self)
        requires
            old(self).grid_wf(),
        ensures
            final(self).grid_wf(),
            final(self).dims_view() == old(self).dims_view(),
    ;

    fn step_solve_path(&mut self) -> (r: bool)
        requires
            old(self).grid_wf(),
        ensures
            final(self).grid_wf(),
            final(self).dims_view() == old(self).dims_view(),
    ;
}

} // verus!
