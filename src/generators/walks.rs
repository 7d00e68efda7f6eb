//! Walks through open (non-Wall) cells, and the connectivity of the open
//! cells of a grid.
use crate::grids::{in_bounds, index_of, lemma_index_in_bounds, CellKind, Dimensions};
use vstd::prelude::*;

verus! {

/// A cell on the grid that is not a Wall.
pub open spec fn is_open_cell(cells: Seq<CellKind>, dims: Dimensions, p: (int, int)) -> bool {
    in_bounds(dims, p.0, p.1) && cells[index_of(dims, p.0, p.1)] != CellKind::Wall
}

/// Two cells one step apart in a cardinal direction.
pub open spec fn grid_step(p: (int, int), q: (int, int)) -> bool {
    ||| (p.0 == q.0 && (p.1 == q.1 + 1 || q.1 == p.1 + 1))
    ||| (p.1 == q.1 && (p.0 == q.0 + 1 || q.0 == p.0 + 1))
}

/// A non-empty sequence of open cells, each one step from the next.
pub open spec fn open_walk(cells: Seq<CellKind>, dims: Dimensions, w: Seq<(int, int)>) -> bool {
    &&& w.len() > 0
    &&& forall|k: int| 0 <= k < w.len() ==> #[trigger] is_open_cell(cells, dims, w[k])
    &&& forall|k: int| 0 <= k < w.len() - 1 ==> #[trigger] grid_step(w[k], w[k + 1])
}

/// Every open cell can be reached from every other through open cells.
pub open spec fn open_connected(cells: Seq<CellKind>, dims: Dimensions) -> bool {
    forall|a: (int, int), b: (int, int)|
        #[trigger] is_open_cell(cells, dims, a) && #[trigger] is_open_cell(cells, dims, b) ==> exists|
            w: Seq<(int, int)>,
        | #[trigger] open_walk(cells, dims, w) && w[0] == a && w.last() == b
}

/// No cell is open.
pub open spec fn all_walls(cells: Seq<CellKind>) -> bool {
    forall|i: int| 0 <= i < cells.len() ==> #[trigger] cells[i] == CellKind::Wall
}

/// `after` has the open cells of `before` and possibly more.
pub open spec fn opens_kept(before: Seq<CellKind>, after: Seq<CellKind>) -> bool {
    &&& before.len() == after.len()
    &&& forall|i: int|
        0 <= i < before.len() && before[i] != CellKind::Wall ==> #[trigger] after[i] != CellKind::Wall
}

/// A walk through open cells stays one when cells only open up.
pub proof fn lemma_walk_kept(before: Seq<CellKind>, after: Seq<CellKind>, dims: Dimensions, w: Seq<(int, int)>)
    requires
        opens_kept(before, after),
        before.len() == dims.rows * dims.columns,
        open_walk(before, dims, w),
    ensures
        open_walk(after, dims, w),
{
    assert forall|k: int| 0 <= k < w.len() implies #[trigger] is_open_cell(after, dims, w[k]) by {
        assert(is_open_cell(before, dims, w[k]));
        lemma_index_in_bounds(dims, w[k].0, w[k].1);
    }
}

/// Writing a kind other than Wall at one cell keeps the open cells connected
/// when the cell was open already, when it lies next to an open cell, or
/// when no cell was open.
pub proof fn lemma_open_one(before: Seq<CellKind>, dims: Dimensions, x: (int, int), kind: CellKind)
    requires
        before.len() == dims.rows * dims.columns,
        in_bounds(dims, x.0, x.1),
        kind != CellKind::Wall,
        open_connected(before, dims),
        ({
            ||| is_open_cell(before, dims, x)
            ||| all_walls(before)
            ||| exists|y: (int, int)| #[trigger] is_open_cell(before, dims, y) && grid_step(x, y)
        }),
    ensures
        open_connected(before.update(index_of(dims, x.0, x.1), kind), dims),
        opens_kept(before, before.update(index_of(dims, x.0, x.1), kind)),
{
    let after = before.update(index_of(dims, x.0, x.1), kind);
    lemma_index_in_bounds(dims, x.0, x.1);
    assert(opens_kept(before, after));
    assert forall|a: (int, int), b: (int, int)|
        #[trigger] is_open_cell(after, dims, a) && #[trigger] is_open_cell(after, dims, b) implies exists|
            w: Seq<(int, int)>,
        | #[trigger] open_walk(after, dims, w) && w[0] == a && w.last() == b by {
        lemma_index_in_bounds(dims, a.0, a.1);
        lemma_index_in_bounds(dims, b.0, b.1);
        let a_old = is_open_cell(before, dims, a);
        let b_old = is_open_cell(before, dims, b);
        if !a_old {
            assert(index_of(dims, a.0, a.1) == index_of(dims, x.0, x.1));
            assert(a == x);
        }
        if !b_old {
            assert(index_of(dims, b.0, b.1) == index_of(dims, x.0, x.1));
            assert(b == x);
        }
        if a_old && b_old {
            let w = choose|w: Seq<(int, int)>| #[trigger] open_walk(before, dims, w) && w[0] == a && w.last() == b;
            lemma_walk_kept(before, after, dims, w);
        } else if a == b {
            let w = seq![a];
            assert(open_walk(after, dims, w));
        } else if !a_old {
            // a is the new cell: step to an open neighbour y, then walk to b.
            if all_walls(before) {
                assert(before[index_of(dims, b.0, b.1)] == CellKind::Wall);
            }
            let y = choose|y: (int, int)| #[trigger] is_open_cell(before, dims, y) && grid_step(x, y);
            let w = choose|w: Seq<(int, int)>| #[trigger] open_walk(before, dims, w) && w[0] == y && w.last() == b;
            lemma_walk_kept(before, after, dims, w);
            let w2 = seq![a].add(w);
            assert forall|k: int| 0 <= k < w2.len() implies #[trigger] is_open_cell(after, dims, w2[k]) by {
                if k > 0 {
                    assert(w2[k] == w[k - 1]);
                }
            }
            assert forall|k: int| 0 <= k < w2.len() - 1 implies #[trigger] grid_step(w2[k], w2[k + 1]) by {
                if k > 0 {
                    assert(w2[k] == w[k - 1]);
                    assert(w2[k + 1] == w[k]);
                    assert(grid_step(w[k - 1], w[(k - 1) + 1]));
                }
            }
            assert(open_walk(after, dims, w2));
            assert(w2.last() == w.last());
        } else {
            // b is the new cell: walk from a to an open neighbour y, then step to b.
            if all_walls(before) {
                assert(before[index_of(dims, a.0, a.1)] == CellKind::Wall);
            }
            let y = choose|y: (int, int)| #[trigger] is_open_cell(before, dims, y) && grid_step(x, y);
            let w = choose|w: Seq<(int, int)>| #[trigger] open_walk(before, dims, w) && w[0] == a && w.last() == y;
            lemma_walk_kept(before, after, dims, w);
            let w2 = w.push(b);
            assert forall|k: int| 0 <= k < w2.len() implies #[trigger] is_open_cell(after, dims, w2[k]) by {
                if k < w.len() {
                    assert(w2[k] == w[k]);
                }
            }
            assert forall|k: int| 0 <= k < w2.len() - 1 implies #[trigger] grid_step(w2[k], w2[k + 1]) by {
                if k < w.len() - 1 {
                    assert(w2[k] == w[k]);
                    assert(w2[k + 1] == w[k + 1]);
                } else {
                    assert(w2[k] == y);
                    assert(w2[k + 1] == b);
                }
            }
            assert(open_walk(after, dims, w2));
        }
    }
}

/// An open cell stays open when cells only open up.
pub proof fn lemma_open_kept(before: Seq<CellKind>, after: Seq<CellKind>, dims: Dimensions, p: (int, int))
    requires
        opens_kept(before, after),
        before.len() == dims.rows * dims.columns,
        is_open_cell(before, dims, p),
    ensures
        is_open_cell(after, dims, p),
{
    lemma_index_in_bounds(dims, p.0, p.1);
}

/// Only Empty and Wall on the cells.
pub open spec fn plain(cells: Seq<CellKind>) -> bool {
    forall|i: int| 0 <= i < cells.len() ==> #[trigger] cells[i] == CellKind::Empty || cells[i] == CellKind::Wall
}

pub proof fn lemma_plain_update(s: Seq<CellKind>, i: int, k: CellKind)
    requires
        0 <= i < s.len(),
        k == CellKind::Empty || k == CellKind::Wall,
    ensures
        plain(s) ==> plain(s.update(i, k)),
{
    if plain(s) {
        assert forall|j: int| 0 <= j < s.len() implies #[trigger] s.update(i, k)[j] == CellKind::Empty
            || s.update(i, k)[j] == CellKind::Wall by {
            if j != i {
                assert(s[j] == CellKind::Empty || s[j] == CellKind::Wall);
            }
        }
    }
}

/// Every open cell is Empty, and the Empty cells are connected: from each
/// one, every other can be reached through Empty cells.
pub open spec fn maze_connected(cells: Seq<CellKind>, dims: Dimensions) -> bool {
    &&& open_connected(cells, dims)
    &&& forall|p: (int, int)| #[trigger] is_open_cell(cells, dims, p) ==> cells[index_of(dims, p.0, p.1)] == CellKind::Empty
}

} // verus!
