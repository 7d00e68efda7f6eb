use mazes::grids::block_grid::BlockGrid;
use mazes::grids::{CellKind, SolverKind};
use mazes::search::{Graph, Solver};

/// A 5 by 5 grid with a Wall border and an open 3 by 3 interior, Start at
/// (1, 1) and Goal at (3, 3).
fn open_room(kind: SolverKind) -> BlockGrid {
    let mut grid = BlockGrid::with_dims(5, 5);
    for i in 0..5 {
        grid.set_cell(0, i, CellKind::Wall);
        grid.set_cell(4, i, CellKind::Wall);
        grid.set_cell(i, 0, CellKind::Wall);
        grid.set_cell(i, 4, CellKind::Wall);
    }
    grid.toggle_cell(1, 1, CellKind::Start);
    grid.toggle_cell(3, 3, CellKind::Goal);
    grid.solver_kind = kind;
    grid
}

fn path_in_room(kind: SolverKind) -> Vec<usize> {
    let mut grid = open_room(kind);
    assert_eq!(grid.make_graph(), Ok(()));
    let mut solver = grid.solver.take().unwrap();
    let graph = grid.graph.as_ref().unwrap();
    solver.path_to(graph, 3 * 5 + 3).unwrap()
}

fn adjacent(a: usize, b: usize) -> bool {
    let (ra, ca) = (a / 5, a % 5);
    let (rb, cb) = (b / 5, b % 5);
    ra.abs_diff(rb) + ca.abs_diff(cb) == 1
}

#[test]
fn bfs_finds_a_shortest_path_in_open_room() {
    let p = path_in_room(SolverKind::BFS);
    assert_eq!(p.len(), 5);
    assert_eq!(p[0], 6);
    assert_eq!(p[4], 18);
    assert!(p.windows(2).all(|w| adjacent(w[0], w[1])));
}

#[test]
fn astar_finds_a_shortest_path_in_open_room() {
    let p = path_in_room(SolverKind::AStar);
    assert_eq!(p.len(), 5);
    assert_eq!(p[0], 6);
    assert_eq!(p[4], 18);
    assert!(p.windows(2).all(|w| adjacent(w[0], w[1])));
}

#[test]
fn dfs_finds_a_connected_path_in_open_room() {
    let p = path_in_room(SolverKind::DFS);
    assert_eq!(p[0], 6);
    assert_eq!(*p.last().unwrap(), 18);
    assert!(p.windows(2).all(|w| adjacent(w[0], w[1])));
    assert!(p.iter().all(|&i| i / 5 >= 1 && i / 5 <= 3 && i % 5 >= 1 && i % 5 <= 3));
}

#[test]
fn solve_path_marks_the_interior_of_the_path() {
    let mut grid = open_room(SolverKind::BFS);
    grid.solve_path();
    let paths = grid.cells.iter().filter(|k| **k == CellKind::Path).count();
    assert_eq!(paths, 3);
    assert_eq!(grid.get_cell(1, 1), CellKind::Start);
    assert_eq!(grid.get_cell(3, 3), CellKind::Goal);
    assert!(grid.graph.is_none());
    assert!(grid.solver.is_none());
}

#[test]
fn solve_path_without_goal_changes_nothing() {
    let mut grid = BlockGrid::with_dims(4, 4);
    grid.toggle_cell(1, 1, CellKind::Start);
    grid.set_cell(2, 2, CellKind::Path);
    let before = grid.cells.clone();
    grid.solve_path();
    assert_eq!(grid.cells, before);
    assert!(grid.graph.is_none());
}

#[test]
fn solve_path_without_start_changes_nothing() {
    let mut grid = BlockGrid::with_dims(4, 4);
    grid.toggle_cell(2, 2, CellKind::Goal);
    grid.set_cell(1, 2, CellKind::Explored);
    let before = grid.cells.clone();
    grid.solve_path();
    assert_eq!(grid.cells, before);
}

#[test]
fn unreachable_goal_leaves_only_cleared_cells() {
    let mut grid = BlockGrid::with_dims(3, 3);
    grid.set_cell(0, 1, CellKind::Wall);
    grid.set_cell(1, 1, CellKind::Wall);
    grid.set_cell(2, 1, CellKind::Wall);
    grid.toggle_cell(0, 0, CellKind::Start);
    grid.toggle_cell(2, 2, CellKind::Goal);
    grid.set_cell(1, 0, CellKind::Explored);
    grid.solve_path();
    assert_eq!(grid.get_cell(1, 0), CellKind::Empty);
    assert!(grid.cells.iter().all(|k| *k != CellKind::Path));
}

#[test]
fn stepping_ends_after_backtrack_and_stays_ended() {
    let mut grid = open_room(SolverKind::BFS);
    let mut steps = 0;
    while grid.step_solve_path() {
        steps += 1;
        assert!(steps < 100);
    }
    let paths = grid.cells.iter().filter(|k| **k == CellKind::Path).count();
    assert_eq!(paths, 3);
    assert!(grid.cells.iter().all(|k| *k != CellKind::Cursor));
    let before = grid.cells.clone();
    let cursor = grid.cursor;
    assert!(!grid.step_solve_path());
    assert_eq!(grid.cells, before);
    assert_eq!(grid.cursor, cursor);
    assert!(!grid.step_solve_path());
    assert_eq!(grid.cells, before);
}

#[test]
fn expanding_the_goal_moves_the_cursor_there() {
    let mut grid = open_room(SolverKind::BFS);
    while grid.solver.as_ref().map_or(true, |s| !s.is_solved()) {
        assert!(grid.step_solve_path());
    }
    assert_eq!(grid.cursor, Some((3, 3)));
    assert_eq!(grid.get_cell(3, 3), CellKind::Cursor);
}

#[test]
fn paths_never_repeat_a_cell() {
    for kind in [SolverKind::BFS, SolverKind::DFS, SolverKind::AStar] {
        let p = path_in_room(kind);
        for i in 0..p.len() {
            for j in i + 1..p.len() {
                assert_ne!(p[i], p[j]);
            }
        }
    }
}

#[test]
fn stepping_without_goal_returns_false() {
    let mut grid = BlockGrid::with_dims(3, 3);
    grid.toggle_cell(0, 0, CellKind::Start);
    let before = grid.cells.clone();
    assert!(!grid.step_solve_path());
    assert_eq!(grid.cells, before);
}

#[test]
fn first_step_expands_the_start() {
    let mut grid = open_room(SolverKind::DFS);
    assert!(grid.step_solve_path());
    assert_eq!(grid.get_cell(1, 1), CellKind::Cursor);
    assert!(grid.step_solve_path());
    assert_eq!(grid.get_cell(1, 1), CellKind::Start);
    assert_eq!(grid.cells.iter().filter(|k| **k == CellKind::Cursor).count(), 1);
}

#[test]
fn solver_reports_exhaustion_on_a_lone_node() {
    let graph = Graph { adjacency: vec![vec![], vec![]] };
    let mut solver = Solver::new(&graph, SolverKind::BFS, 0, 1, 2);
    assert_eq!(solver.next(&graph), Some((0, 0)));
    assert_eq!(solver.next(&graph), None);
    assert!(!solver.is_solved());
    solver.set_solved();
    assert!(solver.is_solved());
}

#[test]
fn solver_back_pointers_lead_to_root() {
    let graph = Graph { adjacency: vec![vec![1], vec![0, 2], vec![1]] };
    let mut solver = Solver::new(&graph, SolverKind::BFS, 0, 2, 3);
    assert_eq!(solver.next(&graph), Some((0, 0)));
    assert_eq!(solver.next(&graph), Some((1, 0)));
    assert_eq!(solver.next(&graph), Some((2, 1)));
    assert_eq!(solver.from_index_of(2), 1);
    assert_eq!(solver.from_index_of(0), 0);
    assert_eq!(solver.next(&graph), None);
}

#[test]
fn path_to_unreachable_goal_is_none() {
    let graph = Graph { adjacency: vec![vec![1], vec![0], vec![]] };
    let mut solver = Solver::new(&graph, SolverKind::DFS, 0, 2, 3);
    assert_eq!(solver.path_to(&graph, 2), None);
}
