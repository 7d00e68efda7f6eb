//! Mazes grown from a frontier of wall cells (randomized Prim).
use crate::generators::{random_below, Generator, MazeGrid};
use crate::generators::walks::{
    all_walls, grid_step, is_open_cell, lemma_open_kept, lemma_open_one,
    maze_connected, open_connected, opens_kept,
};
use crate::grids::wall_grid::adjacent;
use crate::grids::{
    in_bounds, index_of, lemma_index_in_bounds, neighbor_spec, on_border, CellKind, Dimensions,
    Direction, GridKind, Neighbor, column_delta, opposite, row_delta,
};
use vstd::prelude::*;

verus! {

pub struct RandPrims {
    pub grid: MazeGrid,
    pub grid_kind: GridKind,
    /// The frontier: wall cells next to the carved region.
    pub walls: Vec<(usize, usize)>,
    /// The cell most recently reached; it shows as Cursor.
    pub last_passage: (usize, usize),
    pub done: bool,
    /// Steps taken by `generate_maze`.
    pub steps: usize,
}

/// The cell at `p` on the grid's cells.
pub open spec fn cell_at(cells: Seq<CellKind>, dims: Dimensions, p: (usize, usize)) -> CellKind {
    cells[index_of(dims, p.0 as int, p.1 as int)]
}

proof fn lemma_remove_keeps_pair(s: Seq<(usize, usize)>, k: int, x: (usize, usize))
    requires
        0 <= k < s.len(),
        s.contains(x),
        s[k] != x,
    ensures
        s.remove(k).contains(x),
{
    let m = choose|m: int| 0 <= m < s.len() && s[m] == x;
    if m < k {
        assert(s.remove(k)[m] == x);
    } else {
        assert(s.remove(k)[m - 1] == x);
    }
}

proof fn lemma_remove_subset(s: Seq<(usize, usize)>, k: int, x: (usize, usize))
    requires
        0 <= k < s.len(),
        s.remove(k).contains(x),
    ensures
        s.contains(x),
{
    let w = choose|w: int| 0 <= w < s.len() - 1 && s.remove(k)[w] == x;
    if w < k {
        assert(s[w] == x);
    } else {
        assert(s[w + 1] == x);
    }
}

/// `v` if it is odd, else `v + 1`.
fn odd_at_least(v: usize) -> (r: usize)
    requires
        v < usize::MAX,
    ensures
        r == if v % 2 == 0 {
            v + 1
        } else {
            v as int
        },
{
    if v % 2 == 0 {
        v + 1
    } else {
        v
    }
}

/// A present neighbour that is not a Wall.
pub open spec fn is_open_side(n: Option<Neighbor>) -> bool {
    n matches Some(nb) && nb.0 != CellKind::Wall
}

/// A neighbour that joins the frontier: a Wall off the border.
pub open spec fn should_add(dims: Dimensions, n: Option<Neighbor>) -> bool {
    n matches Some(nb) && nb.0 == CellKind::Wall && !on_border(dims, nb.1.0 as int, nb.1.1 as int)
}

/// How many sides of `w` are not Wall.
pub open spec fn side_count(cells: Seq<CellKind>, dims: Dimensions, w: (usize, usize)) -> int {
    let side = |d: Direction| if is_open_side(neighbor_spec(cells, dims, w.0 as int, w.1 as int, d)) {
        1int
    } else {
        0int
    };
    side(Direction::North) + side(Direction::South) + side(Direction::East) + side(Direction::West)
}

/// The last side of `w`, in the order North, South, East, West, that is not Wall.
pub open spec fn open_dir(cells: Seq<CellKind>, dims: Dimensions, w: (usize, usize)) -> Option<Direction> {
    let open = |d: Direction| is_open_side(neighbor_spec(cells, dims, w.0 as int, w.1 as int, d));
    if open(Direction::West) {
        Some(Direction::West)
    } else if open(Direction::East) {
        Some(Direction::East)
    } else if open(Direction::South) {
        Some(Direction::South)
    } else if open(Direction::North) {
        Some(Direction::North)
    } else {
        None
    }
}

/// The cell one step from `w` away from direction `d`.
pub open spec fn beyond(w: (usize, usize), d: Direction) -> (int, int) {
    (w.0 + row_delta(opposite(d)), w.1 + column_delta(opposite(d)))
}

/// Whether the step from `p` in direction `d` stays on the grid.
fn step_in_bounds(dims: Dimensions, p: (usize, usize), d: Direction) -> (r: bool)
    requires
        d != Direction::Sentinel,
        in_bounds(dims, p.0 as int, p.1 as int),
    ensures
        r == in_bounds(dims, p.0 + row_delta(d), p.1 + column_delta(d)),
{
    match d {
        Direction::North => p.0 + 1 < dims.rows,
        Direction::South => p.0 >= 1,
        Direction::East => p.1 + 1 < dims.columns,
        _ => p.1 >= 1,
    }
}

/// Counts the sides of a cell that are not Wall and names the last of them
/// in the order North, South, East, West.
fn open_sides(
    north: Option<Neighbor>,
    south: Option<Neighbor>,
    east: Option<Neighbor>,
    west: Option<Neighbor>,
) -> (r: (usize, Option<Direction>))
    ensures
        r.0 == (if is_open_side(north) { 1int } else { 0 }) + (if is_open_side(south) { 1int } else { 0 })
            + (if is_open_side(east) { 1int } else { 0 }) + (if is_open_side(west) { 1int } else { 0 }),
        r.1 == if is_open_side(west) {
            Some(Direction::West)
        } else if is_open_side(east) {
            Some(Direction::East)
        } else if is_open_side(south) {
            Some(Direction::South)
        } else if is_open_side(north) {
            Some(Direction::North)
        } else {
            None::<Direction>
        },
{
    let mut count: usize = 0;
    let mut dir: Option<Direction> = None;
    if let Some(nb) = north {
        if nb.0 != CellKind::Wall {
            count = count + 1;
            dir = Some(Direction::North);
        }
    }
    if let Some(nb) = south {
        if nb.0 != CellKind::Wall {
            count = count + 1;
            dir = Some(Direction::South);
        }
    }
    if let Some(nb) = east {
        if nb.0 != CellKind::Wall {
            count = count + 1;
            dir = Some(Direction::East);
        }
    }
    if let Some(nb) = west {
        if nb.0 != CellKind::Wall {
            count = count + 1;
            dir = Some(Direction::West);
        }
    }
    (count, dir)
}

/// A coordinate pair as integers.
pub open spec fn at(p: (usize, usize)) -> (int, int) {
    (p.0 as int, p.1 as int)
}

/// A frontier entry is open itself or next to an open cell, unless nothing
/// is open yet and it is the seed.
pub open spec fn frontier_ok(cells: Seq<CellKind>, dims: Dimensions, last: (int, int), w: (int, int)) -> bool {
    ||| is_open_cell(cells, dims, w)
    ||| exists|y: (int, int)| #[trigger] is_open_cell(cells, dims, y) && grid_step(w, y)
    ||| (all_walls(cells) && w == last)
}

proof fn lemma_adjacent_step(p: (usize, usize), q: (usize, usize))
    requires
        adjacent(p, q),
    ensures
        grid_step(at(q), at(p)),
        grid_step(at(p), at(q)),
{
}

impl RandPrims {
    /// Every frontier entry is a Wall cell.
    pub open spec fn frontier_walled(&self) -> bool {
        forall|k: int|
            0 <= k < self.walls@.len() ==> cell_at(self.grid.cells_view(), self.grid.dims_view(), #[trigger] self.walls@[k])
                == CellKind::Wall
    }

    /// The cells and last passage after carving the frontier entry `w` of
    /// `old`: the old last passage and `w` become Empty, and the cell beyond
    /// `w`, away from its open side, becomes the last passage and holds
    /// Cursor (when `w` has an open side and that cell is on the grid).
    pub open spec fn carved_from(old: &RandPrims, new: &RandPrims, w: (usize, usize)) -> bool {
        let cells = old.grid.cells_view();
        let dims = old.grid.dims_view();
        let c2 = cells.update(index_of(dims, old.last_passage.0 as int, old.last_passage.1 as int), CellKind::Empty).update(
            index_of(dims, w.0 as int, w.1 as int),
            CellKind::Empty,
        );
        match open_dir(cells, dims, w) {
            Some(d) => if in_bounds(dims, beyond(w, d).0, beyond(w, d).1) {
                &&& new.last_passage == (beyond(w, d).0 as usize, beyond(w, d).1 as usize)
                &&& new.grid.cells_view() == c2.update(index_of(dims, beyond(w, d).0, beyond(w, d).1), CellKind::Cursor)
            } else {
                &&& new.last_passage == old.last_passage
                &&& new.grid.cells_view() == c2
            },
            None => {
                &&& new.last_passage == old.last_passage
                &&& new.grid.cells_view() == c2
            },
        }
    }

    /// The carved region: the open cells are connected, the last passage is
    /// open (once anything is), every frontier entry touches the region, and
    /// every open cell but the last passage is Empty.
    pub open spec fn carved_ok(&self) -> bool {
        let cells = self.grid.cells_view();
        let dims = self.grid.dims_view();
        let last = at(self.last_passage);
        &&& open_connected(cells, dims)
        &&& is_open_cell(cells, dims, last) || all_walls(cells)
        &&& forall|k: int| 0 <= k < self.walls@.len() ==> frontier_ok(cells, dims, last, at(#[trigger] self.walls@[k]))
        &&& forall|p: (int, int)|
            #[trigger] is_open_cell(cells, dims, p) && p != last ==> cells[index_of(dims, p.0, p.1)] == CellKind::Empty
    }

    pub open spec fn wf(&self) -> bool {
        &&& self.grid.wf()
        &&& self.grid.kind_view() == self.grid_kind
        &&& in_bounds(self.grid.dims_view(), self.last_passage.0 as int, self.last_passage.1 as int)
        &&& forall|k: int|
            0 <= k < self.walls@.len() ==> in_bounds(
                self.grid.dims_view(),
                (#[trigger] self.walls@[k]).0 as int,
                self.walls@[k].1 as int,
            )
        &&& self.done ==> self.walls@.len() == 0
        &&& self.grid_kind == GridKind::Block ==> self.carved_ok()
    }

    /// A generator over a filled grid, seeded with one random cell whose row
    /// and column are odd.
    pub fn new(rows: usize, cols: usize, kind: GridKind) -> (r: RandPrims)
        requires
            rows >= 2,
            cols >= 2,
            rows * cols <= usize::MAX,
        ensures
            r.wf(),
            !r.done,
            r.grid_kind == kind,
            r.grid.dims_view() == (Dimensions { rows, columns: cols }),
            r.grid.cells_view() == Seq::new(
                (rows * cols) as nat,
                |_i: int|
                    if kind == GridKind::Block {
                        CellKind::Wall
                    } else {
                        CellKind::Empty
                    },
            ),
            r.walls@ == seq![r.last_passage],
            r.last_passage.0 % 2 == 1,
            r.last_passage.1 % 2 == 1,
            r.steps == 0,
            kind == GridKind::Block ==> r.frontier_walled(),
    {
        let mut grid = MazeGrid::with_dims(rows, cols, kind);
        grid.fill();
        let row = odd_at_least(random_below(rows - 1));
        let col = odd_at_least(random_below(cols - 1));
        let mut walls: Vec<(usize, usize)> = Vec::new();
        walls.push((row, col));
        let r = RandPrims { grid, grid_kind: kind, walls, last_passage: (row, col), done: false, steps: 0 };
        proof {
            if kind == GridKind::Block {
                assert(r.grid.cells_view() =~= Seq::new((rows * cols) as nat, |_i: int| CellKind::Wall));
                let cells = r.grid.cells_view();
                let dims = r.grid.dims_view();
                assert(all_walls(cells));
                assert forall|a: (int, int)| !#[trigger] is_open_cell(cells, dims, a) by {
                    if in_bounds(dims, a.0, a.1) {
                        lemma_index_in_bounds(dims, a.0, a.1);
                    }
                }
                assert(r.walls@ =~= seq![r.last_passage]);
                assert(frontier_ok(cells, dims, at(r.last_passage), at(r.walls@[0])));
                assert(r.carved_ok());
                lemma_index_in_bounds(dims, row as int, col as int);
                assert(cell_at(cells, dims, r.walls@[0]) == CellKind::Wall);
            } else {
                assert(r.grid.cells_view() =~= Seq::new((rows * cols) as nat, |_i: int| CellKind::Empty));
            }
            assert(r.walls@ =~= seq![r.last_passage]);
        }
        r
    }

    /// Appends to the frontier every neighbour of the last passage that is a
    /// Wall off the border, in the order North, South, East, West.
    fn add_frontier(&mut self)
        requires
            old(self).wf(),
            old(self).grid_kind == GridKind::Block ==> is_open_cell(
                old(self).grid.cells_view(),
                old(self).grid.dims_view(),
                at(old(self).last_passage),
            ),
        ensures
            final(self).wf(),
            final(self).grid == old(self).grid,
            final(self).grid_kind == old(self).grid_kind,
            final(self).last_passage == old(self).last_passage,
            final(self).done == old(self).done,
            final(self).steps == old(self).steps,
            final(self).walls@.len() >= old(self).walls@.len(),
            final(self).walls@.subrange(0, old(self).walls@.len() as int) == old(self).walls@,
            forall|k: int|
                old(self).walls@.len() <= k < final(self).walls@.len() ==> {
                    let c = #[trigger] final(self).walls@[k];
                    &&& cell_at(final(self).grid.cells_view(), final(self).grid.dims_view(), c) == CellKind::Wall
                    &&& !on_border(final(self).grid.dims_view(), c.0 as int, c.1 as int)
                    &&& adjacent(final(self).last_passage, c)
                },
            !old(self).done ==> forall|d: Direction|
                d != Direction::Sentinel && should_add(
                    old(self).grid.dims_view(),
                    #[trigger] neighbor_spec(
                        old(self).grid.cells_view(),
                        old(self).grid.dims_view(),
                        old(self).last_passage.0 as int,
                        old(self).last_passage.1 as int,
                        d,
                    ),
                ) ==> final(self).walls@.contains(
                    neighbor_spec(
                        old(self).grid.cells_view(),
                        old(self).grid.dims_view(),
                        old(self).last_passage.0 as int,
                        old(self).last_passage.1 as int,
                        d,
                    ).unwrap().1,
                ),
    {
        let (row, column) = self.last_passage;
        let dims = self.grid.dims();
        let hood = self.grid.get_neighborhood_of(row, column);
        let slots = [hood.north, hood.south, hood.east, hood.west];
        let dirs = [Direction::North, Direction::South, Direction::East, Direction::West];
        if self.done {
            return;
        }
        let mut t: usize = 0;
        while t < 4
            invariant
                t <= 4,
                slots@.len() == 4,
                dirs@.len() == 4,
                forall|u: int| 0 <= u < 4 ==> #[trigger] dirs@[u] != Direction::Sentinel,
                forall|u: int|
                    0 <= u < 4 ==> #[trigger] slots@[u] == neighbor_spec(
                        self.grid.cells_view(),
                        dims,
                        row as int,
                        column as int,
                        dirs@[u],
                    ),
                dims == self.grid.dims_view(),
                (row, column) == self.last_passage,
                !self.done,
                self.grid == old(self).grid,
                self.grid_kind == old(self).grid_kind,
                self.last_passage == old(self).last_passage,
                self.done == old(self).done,
                self.steps == old(self).steps,
                self.wf(),
                self.grid_kind == GridKind::Block ==> is_open_cell(
                    self.grid.cells_view(),
                    self.grid.dims_view(),
                    at(self.last_passage),
                ),
                self.walls@.len() >= old(self).walls@.len(),
                self.walls@.subrange(0, old(self).walls@.len() as int) == old(self).walls@,
                forall|k: int|
                    old(self).walls@.len() <= k < self.walls@.len() ==> {
                        let c = #[trigger] self.walls@[k];
                        &&& cell_at(self.grid.cells_view(), dims, c) == CellKind::Wall
                        &&& !on_border(dims, c.0 as int, c.1 as int)
                        &&& adjacent(self.last_passage, c)
                    },
                forall|u: int|
                    0 <= u < t && should_add(dims, #[trigger] slots@[u]) ==> self.walls@.contains(slots@[u].unwrap().1),
            decreases 4 - t,
        {
            let slot = slots[t];
            let ghost d = dirs@[t as int];
            proof {
                assert(slots@[t as int] == neighbor_spec(self.grid.cells_view(), dims, row as int, column as int, d));
                assert(d != Direction::Sentinel);
            }
            if let Some(nb) = slot {
                let (nr, nc) = nb.1;
                let border = nr == 0 || nr + 1 == dims.rows || nc == 0 || nc + 1 == dims.columns;
                if nb.0 == CellKind::Wall && !border {
                    let ghost before = self.walls@;
                    self.walls.push(nb.1);
                    proof {
                        assert(self.walls@[before.len() as int] == nb.1);
                        assert forall|u: int|
                            0 <= u < t + 1 && should_add(dims, #[trigger] slots@[u]) implies self.walls@.contains(slots@[u].unwrap().1) by {
                            if u < t {
                                let m = choose|m: int| 0 <= m < before.len() && before[m] == slots@[u].unwrap().1;
                                assert(self.walls@[m] == before[m]);
                            }
                        }
                        assert(adjacent((row, column), nb.1));
                        lemma_adjacent_step((row, column), nb.1);
                        if self.grid_kind == GridKind::Block {
                            let cells = self.grid.cells_view();
                            assert(is_open_cell(cells, dims, at(self.last_passage)) && grid_step(at(nb.1), at(self.last_passage)));
                            assert(frontier_ok(cells, dims, at(self.last_passage), at(nb.1)));
                            assert forall|k: int| 0 <= k < self.walls@.len() implies frontier_ok(
                                cells,
                                dims,
                                at(self.last_passage),
                                at(#[trigger] self.walls@[k]),
                            ) by {
                                if k < before.len() {
                                    assert(self.walls@[k] == before[k]);
                                }
                            }
                        }
                        assert(self.walls@.subrange(0, old(self).walls@.len() as int) =~= before.subrange(0, old(self).walls@.len() as int));
                        assert forall|k: int|
                            0 <= k < self.walls@.len() implies in_bounds(
                                self.grid.dims_view(),
                                (#[trigger] self.walls@[k]).0 as int,
                                self.walls@[k].1 as int,
                            ) by {
                            if k < before.len() {
                                assert(self.walls@[k] == before[k]);
                            }
                        }
                        assert forall|k: int|
                            old(self).walls@.len() <= k < self.walls@.len() implies {
                                let c = #[trigger] self.walls@[k];
                                &&& cell_at(self.grid.cells_view(), dims, c) == CellKind::Wall
                                &&& !on_border(dims, c.0 as int, c.1 as int)
                                &&& adjacent(self.last_passage, c)
                            } by {
                            if k < before.len() {
                                assert(self.walls@[k] == before[k]);
                            }
                        }
                    }
                }
            }
            t = t + 1;
        }
        proof {
            assert forall|d: Direction|
                d != Direction::Sentinel && should_add(
                    dims,
                    #[trigger] neighbor_spec(self.grid.cells_view(), dims, row as int, column as int, d),
                ) implies self.walls@.contains(
                    neighbor_spec(self.grid.cells_view(), dims, row as int, column as int, d).unwrap().1,
                ) by {
                let u: int = match d {
                    Direction::North => 0,
                    Direction::South => 1,
                    Direction::East => 2,
                    _ => 3,
                };
                assert(dirs@[u] == d);
                assert(slots@[u] == neighbor_spec(self.grid.cells_view(), dims, row as int, column as int, d));
            }
        }
    }

    /// Keeps only the frontier entries that are still Wall.
    fn drop_carved(&mut self)
        requires
            old(self).wf(),
        ensures
            final(self).wf(),
            final(self).grid == old(self).grid,
            final(self).grid_kind == old(self).grid_kind,
            final(self).last_passage == old(self).last_passage,
            final(self).done == old(self).done,
            final(self).steps == old(self).steps,
            final(self).frontier_walled(),
            forall|k: int| 0 <= k < final(self).walls@.len() ==> old(self).walls@.contains(#[trigger] final(self).walls@[k]),
            forall|k: int|
                0 <= k < old(self).walls@.len() && cell_at(
                    old(self).grid.cells_view(),
                    old(self).grid.dims_view(),
                    #[trigger] old(self).walls@[k],
                ) == CellKind::Wall ==> final(self).walls@.contains(old(self).walls@[k]),
    {
        let dims = self.grid.dims();
        let ghost cells = self.grid.cells_view();
        let mut kept: Vec<(usize, usize)> = Vec::new();
        let mut i: usize = 0;
        while i < self.walls.len()
            invariant
                self.wf(),
                *self == *old(self),
                dims == self.grid.dims_view(),
                cells == self.grid.cells_view(),
                i <= self.walls@.len(),
                forall|k: int| 0 <= k < kept@.len() ==> {
                    &&& cell_at(cells, dims, #[trigger] kept@[k]) == CellKind::Wall
                    &&& self.walls@.contains(kept@[k])
                },
                forall|j: int|
                    0 <= j < i && cell_at(cells, dims, #[trigger] self.walls@[j]) == CellKind::Wall
                        ==> kept@.contains(self.walls@[j]),
            decreases self.walls@.len() - i,
        {
            let w = self.walls[i];
            proof {
                assert(in_bounds(dims, w.0 as int, w.1 as int));
            }
            let ghost before = kept@;
            if self.grid.get_cell_at(w.0, w.1) == CellKind::Wall {
                kept.push(w);
                proof {
                    assert(kept@[before.len() as int] == w);
                    assert forall|k: int| 0 <= k < kept@.len() implies {
                        &&& cell_at(cells, dims, #[trigger] kept@[k]) == CellKind::Wall
                        &&& self.walls@.contains(kept@[k])
                    } by {
                        if k < before.len() {
                            assert(kept@[k] == before[k]);
                        } else {
                            assert(self.walls@[i as int] == w);
                        }
                    }
                    assert forall|j: int|
                        0 <= j < i + 1 && cell_at(cells, dims, #[trigger] self.walls@[j]) == CellKind::Wall
                            implies kept@.contains(self.walls@[j]) by {
                        if j < i {
                            let m = choose|m: int| 0 <= m < before.len() && before[m] == self.walls@[j];
                            assert(kept@[m] == before[m]);
                        }
                    }
                }
            }
            i = i + 1;
        }
        let ghost old_walls = self.walls@;
        self.walls = kept;
        proof {
            assert forall|k: int| 0 <= k < self.walls@.len() implies in_bounds(
                self.grid.dims_view(),
                (#[trigger] self.walls@[k]).0 as int,
                self.walls@[k].1 as int,
            ) by {
                let m = choose|m: int| 0 <= m < old_walls.len() && old_walls[m] == self.walls@[k];
                assert(in_bounds(dims, old_walls[m].0 as int, old_walls[m].1 as int));
            }
            if self.done && self.walls@.len() > 0 {
                assert(old_walls.contains(self.walls@[0]));
            }
            if self.grid_kind == GridKind::Block {
                assert(old(self).carved_ok());
                assert forall|k: int| 0 <= k < self.walls@.len() implies frontier_ok(
                    cells,
                    dims,
                    at(self.last_passage),
                    at(#[trigger] self.walls@[k]),
                ) by {
                    let m = choose|m: int| 0 <= m < old_walls.len() && old_walls[m] == self.walls@[k];
                    assert(frontier_ok(cells, dims, at(self.last_passage), at(old_walls[m])));
                }
                assert(self.carved_ok());
            }
        }
    }

    /// Takes random entries out of the frontier until one has fewer than two
    /// sides that are not Wall; carves it and the last passage to Empty,
    /// moves the last passage one step beyond it (away from its open side)
    /// and paints that cell Cursor, adds the Wall neighbours of the new last
    /// passage to the frontier and drops every frontier entry that is no
    /// longer Wall. When the frontier runs out it sets `done` and carves the
    /// last passage.
    #[verifier::rlimit(100)]
    pub fn step_generation(&mut self)
        requires
            old(self).wf(),
        ensures
            final(self).wf(),
            final(self).steps == old(self).steps,
            final(self).frontier_walled(),
            !final(self).done ==> forall|d: Direction|
                d != Direction::Sentinel && should_add(
                    final(self).grid.dims_view(),
                    #[trigger] neighbor_spec(
                        final(self).grid.cells_view(),
                        final(self).grid.dims_view(),
                        final(self).last_passage.0 as int,
                        final(self).last_passage.1 as int,
                        d,
                    ),
                ) ==> final(self).walls@.contains(
                    neighbor_spec(
                        final(self).grid.cells_view(),
                        final(self).grid.dims_view(),
                        final(self).last_passage.0 as int,
                        final(self).last_passage.1 as int,
                        d,
                    ).unwrap().1,
                ),
            old(self).walls@.len() > 0 && final(self).done ==> forall|k: int|
                0 <= k < old(self).walls@.len() ==> side_count(
                    old(self).grid.cells_view(),
                    old(self).grid.dims_view(),
                    #[trigger] old(self).walls@[k],
                ) >= 2,
            !final(self).done ==> exists|w: (usize, usize)|
                #[trigger] old(self).walls@.contains(w) && side_count(
                    old(self).grid.cells_view(),
                    old(self).grid.dims_view(),
                    w,
                ) < 2 && Self::carved_from(old(self), final(self), w),
            final(self).grid_kind == old(self).grid_kind,
            final(self).grid.dims_view() == old(self).grid.dims_view(),
            old(self).walls@.len() == 0 ==> {
                &&& final(self).done
                &&& final(self).last_passage == old(self).last_passage
                &&& final(self).grid.cells_view() == old(self).grid.cells_view().update(
                    index_of(old(self).grid.dims_view(), old(self).last_passage.0 as int, old(self).last_passage.1 as int),
                    CellKind::Empty,
                )
            },
            final(self).done ==> final(self).last_passage == old(self).last_passage
                && final(self).grid.cells_view() == old(self).grid.cells_view().update(
                    index_of(old(self).grid.dims_view(), old(self).last_passage.0 as int, old(self).last_passage.1 as int),
                    CellKind::Empty,
                ),
            forall|i: int|
                0 <= i < old(self).grid.cells_view().len() && old(self).grid.cells_view()[i] != CellKind::Wall
                    ==> #[trigger] final(self).grid.cells_view()[i] != CellKind::Wall,
            forall|k: int|
                0 <= k < final(self).walls@.len() ==> {
                    let c = #[trigger] final(self).walls@[k];
                    ||| old(self).walls@.contains(c)
                    ||| {
                        &&& cell_at(final(self).grid.cells_view(), final(self).grid.dims_view(), c) == CellKind::Wall
                        &&& !on_border(final(self).grid.dims_view(), c.0 as int, c.1 as int)
                        &&& adjacent(final(self).last_passage, c)
                    }
                },
    {
        loop
            invariant
                self.wf(),
                self.grid == old(self).grid,
                self.grid_kind == old(self).grid_kind,
                self.last_passage == old(self).last_passage,
                self.done == old(self).done,
                self.steps == old(self).steps,
                forall|k: int| 0 <= k < self.walls@.len() ==> old(self).walls@.contains(#[trigger] self.walls@[k]),
                old(self).walls@.len() == 0 ==> self.walls@.len() == 0,
                forall|k: int|
                    0 <= k < old(self).walls@.len() ==> self.walls@.contains(#[trigger] old(self).walls@[k])
                        || side_count(old(self).grid.cells_view(), old(self).grid.dims_view(), old(self).walls@[k]) >= 2,
            decreases self.walls@.len(),
        {
            let (lr, lc) = self.last_passage;
            proof {
                lemma_index_in_bounds(self.grid.dims_view(), lr as int, lc as int);
            }
            if self.walls.len() == 0 {
                let ghost c0 = self.grid.cells_view();
                let ghost dims = self.grid.dims_view();
                self.done = true;
                self.grid.set_cell(lr, lc, CellKind::Empty);
                proof {
                    if self.grid_kind == GridKind::Block {
                        lemma_open_one(c0, dims, at(self.last_passage), CellKind::Empty);
                        let c1 = self.grid.cells_view();
                        assert(is_open_cell(c1, dims, at(self.last_passage)));
                        assert forall|p: (int, int)|
                            #[trigger] is_open_cell(c1, dims, p) && p != at(self.last_passage) implies c1[index_of(dims, p.0, p.1)] == CellKind::Empty by {
                            lemma_index_in_bounds(dims, p.0, p.1);
                            assert(is_open_cell(c0, dims, p));
                        }
                    }
                }
                return;
            }
            let pick = random_below(self.walls.len());
            let ghost before = self.walls@;
            let wall = self.walls.remove(pick);
            proof {
                assert(before[pick as int] == wall);
                assert forall|k: int| 0 <= k < self.walls@.len() implies old(self).walls@.contains(#[trigger] self.walls@[k]) by {
                    lemma_remove_subset(before, pick as int, self.walls@[k]);
                    let w = choose|w: int| 0 <= w < before.len() && before[w] == self.walls@[k];
                    assert(old(self).walls@.contains(before[w]));
                }
                assert(in_bounds(self.grid.dims_view(), wall.0 as int, wall.1 as int));
                lemma_index_in_bounds(self.grid.dims_view(), wall.0 as int, wall.1 as int);
                if self.grid_kind == GridKind::Block {
                    assert(frontier_ok(self.grid.cells_view(), self.grid.dims_view(), at(self.last_passage), at(before[pick as int])));
                    assert forall|k: int| 0 <= k < self.walls@.len() implies frontier_ok(
                        self.grid.cells_view(),
                        self.grid.dims_view(),
                        at(self.last_passage),
                        at(#[trigger] self.walls@[k]),
                    ) by {
                        if k < pick {
                            assert(self.walls@[k] == before[k]);
                        } else {
                            assert(self.walls@[k] == before[k + 1]);
                        }
                    }
                }
            }
            let hood = self.grid.get_neighborhood_of(wall.0, wall.1);
            let (count, dir) = open_sides(hood.north, hood.south, hood.east, hood.west);
            proof {
                assert(count == side_count(self.grid.cells_view(), self.grid.dims_view(), wall));
                assert(dir == open_dir(self.grid.cells_view(), self.grid.dims_view(), wall));
                assert(old(self).walls@.contains(wall)) by {
                    assert(before.contains(wall) && old(self).walls@.contains(before[pick as int]));
                }
                if count >= 2 {
                    assert forall|k: int|
                        0 <= k < old(self).walls@.len() implies self.walls@.contains(#[trigger] old(self).walls@[k])
                            || side_count(old(self).grid.cells_view(), old(self).grid.dims_view(), old(self).walls@[k]) >= 2 by {
                        let e = old(self).walls@[k];
                        if before.contains(e) && e != wall {
                            lemma_remove_keeps_pair(before, pick as int, e);
                        }
                    }
                }
            }
            if count < 2 {
                self.done = false;
                let ghost c0 = self.grid.cells_view();
                let ghost dims = self.grid.dims_view();
                let ghost last0 = at(self.last_passage);
                let ghost w = at(wall);
                self.grid.set_cell(lr, lc, CellKind::Empty);
                let ghost c1 = self.grid.cells_view();
                proof {
                    if self.grid_kind == GridKind::Block {
                        lemma_open_one(c0, dims, last0, CellKind::Empty);
                        assert(frontier_ok(c0, dims, last0, at(before[pick as int])));
                        if is_open_cell(c0, dims, w) {
                            lemma_open_kept(c0, c1, dims, w);
                        } else if all_walls(c0) && w == last0 {
                            assert(is_open_cell(c1, dims, w));
                        } else {
                            let y = choose|y: (int, int)| #[trigger] is_open_cell(c0, dims, y) && grid_step(w, y);
                            lemma_open_kept(c0, c1, dims, y);
                        }
                        lemma_open_one(c1, dims, w, CellKind::Empty);
                    }
                }
                self.grid.set_cell(wall.0, wall.1, CellKind::Empty);
                let ghost c2 = self.grid.cells_view();
                proof {
                    assert forall|i: int| 0 <= i < c0.len() && c0[i] != CellKind::Wall implies #[trigger] c2[i] != CellKind::Wall by {}
                }
                if let Some(d) = dir {
                    let away = d.neg();
                    if step_in_bounds(self.grid.dims(), wall, away) {
                        self.last_passage = self.grid.set_neighbor_of(wall, away, CellKind::Cursor);
                        proof {
                            if self.grid_kind == GridKind::Block {
                                lemma_index_in_bounds(dims, w.0, w.1);
                                assert(is_open_cell(c2, dims, w));
                                assert(grid_step(at(self.last_passage), w));
                                lemma_open_one(c2, dims, at(self.last_passage), CellKind::Cursor);
                            }
                            lemma_index_in_bounds(self.grid.dims_view(), self.last_passage.0 as int, self.last_passage.1 as int);
                            assert forall|i: int| 0 <= i < c2.len() && c2[i] != CellKind::Wall implies #[trigger] self.grid.cells_view()[i] != CellKind::Wall by {}
                        }
                    }
                }
                let ghost carved = *self;
                let ghost kept = self.walls@;
                proof {
                    assert forall|i: int|
                        0 <= i < old(self).grid.cells_view().len() && old(self).grid.cells_view()[i] != CellKind::Wall
                            implies #[trigger] self.grid.cells_view()[i] != CellKind::Wall by {
                        assert(c0[i] != CellKind::Wall);
                        assert(c2[i] != CellKind::Wall);
                    }
                    if self.grid_kind == GridKind::Block {
                        let c3 = self.grid.cells_view();
                        let last = at(self.last_passage);
                        assert(opens_kept(c0, c3));
                        lemma_index_in_bounds(dims, last0.0, last0.1);
                        lemma_index_in_bounds(dims, w.0, w.1);
                        lemma_index_in_bounds(dims, last.0, last.1);
                        assert(is_open_cell(c3, dims, last));
                        assert forall|k: int| 0 <= k < self.walls@.len() implies frontier_ok(
                            c3,
                            dims,
                            last,
                            at(#[trigger] self.walls@[k]),
                        ) by {
                            let e = at(self.walls@[k]);
                            assert(frontier_ok(c0, dims, last0, e));
                            if is_open_cell(c0, dims, e) {
                                lemma_open_kept(c0, c3, dims, e);
                            } else if all_walls(c0) && e == last0 {
                                assert(is_open_cell(c3, dims, e));
                            } else {
                                let y = choose|y: (int, int)| #[trigger] is_open_cell(c0, dims, y) && grid_step(e, y);
                                lemma_open_kept(c0, c3, dims, y);
                            }
                        }
                        assert forall|p: (int, int)|
                            #[trigger] is_open_cell(c3, dims, p) && p != last implies c3[index_of(dims, p.0, p.1)] == CellKind::Empty by {
                            lemma_index_in_bounds(dims, p.0, p.1);
                            if p != w && p != last0 {
                                assert(c3[index_of(dims, p.0, p.1)] == c0[index_of(dims, p.0, p.1)]);
                                assert(is_open_cell(c0, dims, p));
                            }
                        }
                    }
                }
                self.add_frontier();
                let ghost added = self.walls@;
                let ghost before_drop = *self;
                self.drop_carved();
                proof {
                    let cells = self.grid.cells_view();
                    let dims = self.grid.dims_view();
                    let (lr2, lc2) = self.last_passage;
                    assert forall|d: Direction|
                        d != Direction::Sentinel && should_add(
                            dims,
                            #[trigger] neighbor_spec(cells, dims, lr2 as int, lc2 as int, d),
                        ) implies self.walls@.contains(
                            neighbor_spec(cells, dims, lr2 as int, lc2 as int, d).unwrap().1,
                        ) by {
                        let e = neighbor_spec(cells, dims, lr2 as int, lc2 as int, d).unwrap().1;
                        assert(added.contains(e));
                        let m = choose|m: int| 0 <= m < added.len() && added[m] == e;
                        lemma_index_in_bounds(dims, lr2 + row_delta(d), lc2 + column_delta(d));
                        assert(cell_at(before_drop.grid.cells_view(), before_drop.grid.dims_view(), before_drop.walls@[m]) == CellKind::Wall);
                    }
                    assert(Self::carved_from(old(self), &carved, wall));
                    assert forall|k: int| 0 <= k < self.walls@.len() implies {
                        let c = #[trigger] self.walls@[k];
                        ||| old(self).walls@.contains(c)
                        ||| {
                            &&& cell_at(self.grid.cells_view(), self.grid.dims_view(), c) == CellKind::Wall
                            &&& !on_border(self.grid.dims_view(), c.0 as int, c.1 as int)
                            &&& adjacent(self.last_passage, c)
                        }
                    } by {
                        let m = choose|m: int| 0 <= m < added.len() && added[m] == self.walls@[k];
                        if m < kept.len() {
                            assert(added.subrange(0, kept.len() as int)[m] == kept[m]);
                            assert(old(self).walls@.contains(kept[m]));
                        }
                    }
                }
                return;
            }
        }
    }

    /// One step, then a copy of the cells.
    pub fn next_step(&mut self) -> (r: Vec<CellKind>)
        requires
            old(self).wf(),
        ensures
            final(self).wf(),
            r@ == final(self).grid.cells_view(),
            final(self).frontier_walled(),
            !final(self).done ==> forall|d: Direction|
                d != Direction::Sentinel && should_add(
                    final(self).grid.dims_view(),
                    #[trigger] neighbor_spec(
                        final(self).grid.cells_view(),
                        final(self).grid.dims_view(),
                        final(self).last_passage.0 as int,
                        final(self).last_passage.1 as int,
                        d,
                    ),
                ) ==> final(self).walls@.contains(
                    neighbor_spec(
                        final(self).grid.cells_view(),
                        final(self).grid.dims_view(),
                        final(self).last_passage.0 as int,
                        final(self).last_passage.1 as int,
                        d,
                    ).unwrap().1,
                ),

            old(self).walls@.len() == 0 ==> final(self).done && final(self).grid.cells_view()
                == old(self).grid.cells_view().update(
                index_of(old(self).grid.dims_view(), old(self).last_passage.0 as int, old(self).last_passage.1 as int),
                CellKind::Empty,
            ),
            !final(self).done ==> exists|w: (usize, usize)|
                #[trigger] old(self).walls@.contains(w) && side_count(
                    old(self).grid.cells_view(),
                    old(self).grid.dims_view(),
                    w,
                ) < 2 && Self::carved_from(old(self), final(self), w),
    {
        self.step_generation();
        self.grid.snapshot()
    }

    /// Steps until done (giving up once `steps` reaches `usize::MAX`),
    /// carves the last passage and returns the cells.
    pub fn generate_maze(&mut self) -> (r: Vec<CellKind>)
        requires
            old(self).wf(),
        ensures
            final(self).wf(),
            r@ == final(self).grid.cells_view(),
            final(self).grid.cells_view()[index_of(
                final(self).grid.dims_view(),
                final(self).last_passage.0 as int,
                final(self).last_passage.1 as int,
            )] == CellKind::Empty,
            old(self).grid_kind == GridKind::Block ==> maze_connected(r@, final(self).grid.dims_view()),
            final(self).done || final(self).steps == usize::MAX,
            final(self).done ==> final(self).walls@.len() == 0,
            old(self).done || old(self).walls@.len() == 0 ==> final(self).done,
            final(self).grid.dims_view() == old(self).grid.dims_view(),
            final(self).grid_kind == old(self).grid_kind,
    {
        let mut taken: usize = 0;
        while !self.done && taken < usize::MAX
            invariant
                self.wf(),
                self.grid_kind == old(self).grid_kind,
                self.grid.dims_view() == old(self).grid.dims_view(),
                self.steps >= taken,
                taken > 0 && old(self).walls@.len() == 0 ==> self.done,
                old(self).done ==> self.done,
                taken == 0 ==> self.walls@ == old(self).walls@,
            decreases usize::MAX - taken,
        {
            self.step_generation();
            self.steps = self.steps.saturating_add(1);
            taken = taken + 1;
        }
        let (row, column) = self.last_passage;
        proof {
            lemma_index_in_bounds(self.grid.dims_view(), row as int, column as int);
        }
        let ghost c0 = self.grid.cells_view();
        let ghost dims = self.grid.dims_view();
        self.grid.set_cell(row, column, CellKind::Empty);
        proof {
            if self.grid_kind == GridKind::Block {
                lemma_open_one(c0, dims, at(self.last_passage), CellKind::Empty);
                let c1 = self.grid.cells_view();
                assert forall|p: (int, int)| #[trigger] is_open_cell(c1, dims, p) implies c1[index_of(dims, p.0, p.1)] == CellKind::Empty by {
                    lemma_index_in_bounds(dims, p.0, p.1);
                    if p != at(self.last_passage) {
                        assert(is_open_cell(c0, dims, p));
                    }
                }
                assert(is_open_cell(c1, dims, at(self.last_passage)));
                assert forall|k: int| 0 <= k < self.walls@.len() implies frontier_ok(
                    c1,
                    dims,
                    at(self.last_passage),
                    at(#[trigger] self.walls@[k]),
                ) by {
                    let e = at(self.walls@[k]);
                    assert(frontier_ok(c0, dims, at(self.last_passage), e));
                    if is_open_cell(c0, dims, e) {
                        lemma_open_kept(c0, c1, dims, e);
                    } else if all_walls(c0) && e == at(self.last_passage) {
                    } else {
                        let y = choose|y: (int, int)| #[trigger] is_open_cell(c0, dims, y) && grid_step(e, y);
                        lemma_open_kept(c0, c1, dims, y);
                    }
                }
            }
        }
        self.grid.snapshot()
    }

    pub fn is_done(&self) -> (r: bool)
        ensures
            r == self.done,
    {
        self.done
    }
}

impl Generator for RandPrims {
    open spec fn gen_wf(&self) -> bool {
        self.wf()
    }

    open spec fn carved(&self) -> Seq<CellKind> {
        self.grid.cells_view()
    }

    open spec fn finished(&self) -> bool {
        self.done
    }

    fn step_generation(&mut self) {
        RandPrims::step_generation(self)
    }

    fn next_step(&mut self) -> (r: Vec<CellKind>) {
        RandPrims::next_step(self)
    }

    fn generate_maze(&mut self) -> (r: Vec<CellKind>) {
        RandPrims::generate_maze(self)
    }

    fn is_done(&self) -> (r: bool) {
        RandPrims::is_done(self)
    }
}

} // verus!
