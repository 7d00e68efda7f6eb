use mazes::grids::block_grid::{BlockGrid, SolveError};
use mazes::grids::wall_grid::WallGrid;
use mazes::grids::{CellKind, Direction, Grid, Neighborhood, SolverKind};

#[test]
fn block_grid_it_works() {
    let mut grid = BlockGrid::with_dims(200, 400);

    grid.set_cell(1, 2, CellKind::Wall);
    grid.set_cell(0, 0, CellKind::Wall);
    grid.set_cell(4, 4, CellKind::Wall);
    grid.set_cell(3, 2, CellKind::Wall);
    grid.set_cell(1, 1, CellKind::Wall);

    assert!(grid.is_set(0, 0));
    assert!(!grid.is_set(0, 1));

    assert!(grid.unset_cell(0, 0) == CellKind::Wall);
    assert!(!grid.is_set(0, 0));

    assert!(!(grid.toggle_cell(14, 1, CellKind::Wall) == CellKind::Wall));
    assert!(grid.is_set(14, 1));

    assert!(!(grid.toggle_cell(100, 300, CellKind::Wall) == CellKind::Wall));
    assert!(grid.is_set(100, 300));
}

#[test]
fn direction_negation_pairs_opposites() {
    assert_eq!(Direction::North.neg(), Direction::South);
    assert_eq!(Direction::South.neg(), Direction::North);
    assert_eq!(Direction::East.neg(), Direction::West);
    assert_eq!(Direction::West.neg(), Direction::East);
    assert_eq!(Direction::Sentinel.neg(), Direction::Sentinel);
}

#[test]
fn direction_and_kind_codes() {
    assert_eq!(Direction::from(0), Direction::North);
    assert_eq!(Direction::from(1), Direction::South);
    assert_eq!(Direction::from(2), Direction::East);
    assert_eq!(Direction::from(3), Direction::West);
    assert_eq!(CellKind::from(0), CellKind::Empty);
    assert_eq!(CellKind::from(1), CellKind::Wall);
    assert_eq!(CellKind::from(2), CellKind::Start);
    assert_eq!(CellKind::from(3), CellKind::Goal);
    assert_eq!(CellKind::from(4), CellKind::Path);
    assert_eq!(CellKind::from(5), CellKind::Explored);
    assert_eq!(CellKind::from(6), CellKind::Cursor);
}

#[test]
fn neighborhood_enumerates_in_fixed_order() {
    let mut grid = BlockGrid::with_dims(3, 3);
    grid.set_cell(2, 1, CellKind::Wall);
    grid.set_cell(1, 0, CellKind::Goal);
    let mut hood = grid.get_neighborhood_of(1, 1);
    assert_eq!(hood.next(), Some(((CellKind::Wall, (2, 1)), Direction::North)));
    assert_eq!(hood.next(), Some(((CellKind::Empty, (0, 1)), Direction::South)));
    assert_eq!(hood.next(), Some(((CellKind::Empty, (1, 2)), Direction::East)));
    assert_eq!(hood.next(), Some(((CellKind::Goal, (1, 0)), Direction::West)));
    assert_eq!(hood.next(), None);
    assert_eq!(hood.next(), Some(((CellKind::Wall, (2, 1)), Direction::North)));
}

#[test]
fn neighborhood_at_corner_leaves_missing_sides_absent() {
    let grid = BlockGrid::with_dims(4, 5);
    let hood = grid.get_neighborhood_of(0, 0);
    assert_eq!(hood.north, Some((CellKind::Empty, (1, 0))));
    assert_eq!(hood.south, None);
    assert_eq!(hood.east, Some((CellKind::Empty, (0, 1))));
    assert_eq!(hood.west, None);
    let empty = Neighborhood::new();
    assert_eq!(empty.north, None);
}

#[test]
fn toggling_start_evicts_previous_start() {
    let mut grid = BlockGrid::with_dims(5, 5);
    assert_eq!(grid.toggle_cell(1, 1, CellKind::Start), CellKind::Empty);
    assert_eq!(grid.start, Some((1, 1)));
    assert_eq!(grid.toggle_cell(2, 3, CellKind::Start), CellKind::Empty);
    assert_eq!(grid.start, Some((2, 3)));
    assert_eq!(grid.get_cell(1, 1), CellKind::Empty);
    assert_eq!(grid.get_cell(2, 3), CellKind::Start);
    assert_eq!(grid.toggle_cell(2, 3, CellKind::Wall), CellKind::Start);
    assert_eq!(grid.get_cell(2, 3), CellKind::Wall);
    assert_eq!(grid.start, Some((2, 3)));
    assert_eq!(grid.toggle_cell(2, 3, CellKind::Wall), CellKind::Wall);
    assert_eq!(grid.get_cell(2, 3), CellKind::Empty);
}

#[test]
fn clear_and_fill_reset_everything() {
    let mut grid = BlockGrid::with_dims(3, 4);
    grid.toggle_cell(0, 0, CellKind::Start);
    grid.fill();
    assert!(grid.cells.iter().all(|k| *k == CellKind::Wall));
    assert_eq!(grid.start, None);
    grid.clear();
    assert!(grid.cells.iter().all(|k| *k == CellKind::Empty));
    assert_eq!(grid.cells.len(), 12);
}

#[test]
fn set_neighbor_of_writes_one_step_away() {
    let mut grid = BlockGrid::with_dims(4, 4);
    assert_eq!(grid.set_neighbor_of((1, 1), Direction::North, CellKind::Cursor), (2, 1));
    assert_eq!(grid.get_cell(2, 1), CellKind::Cursor);
    assert_eq!(grid.set_neighbor_of((1, 1), Direction::West, CellKind::Wall), (1, 0));
    assert_eq!(grid.get_cell(1, 0), CellKind::Wall);
}

#[test]
fn make_graph_needs_a_start() {
    let mut grid = BlockGrid::with_dims(3, 3);
    assert_eq!(grid.make_graph(), Err(SolveError::MissingStart));
    assert!(grid.graph.is_none());
}

#[test]
fn make_graph_for_astar_needs_a_goal() {
    let mut grid = BlockGrid::with_dims(3, 3);
    grid.toggle_cell(0, 0, CellKind::Start);
    grid.solver_kind = SolverKind::AStar;
    assert_eq!(grid.make_graph(), Err(SolveError::MissingGoal));
    assert!(grid.graph.is_none());
    grid.solver_kind = SolverKind::BFS;
    assert_eq!(grid.make_graph(), Ok(()));
    assert!(grid.graph.is_some());
}

#[test]
fn make_graph_clears_path_marks_and_skips_walls() {
    let mut grid = BlockGrid::with_dims(2, 2);
    grid.toggle_cell(0, 0, CellKind::Start);
    grid.set_cell(0, 1, CellKind::Path);
    grid.set_cell(1, 0, CellKind::Wall);
    grid.set_cell(1, 1, CellKind::Explored);
    assert_eq!(grid.make_graph(), Ok(()));
    assert_eq!(grid.get_cell(0, 1), CellKind::Empty);
    assert_eq!(grid.get_cell(1, 1), CellKind::Empty);
    let g = grid.graph.as_ref().unwrap();
    assert_eq!(g.adjacency.len(), 4);
    assert_eq!(g.adjacency[0], vec![1]);
    assert!(g.adjacency[2].is_empty());
    assert!(g.adjacency[3].contains(&1));
    assert!(!g.adjacency[3].contains(&2));
}

#[test]
fn wall_grid_passages_are_symmetric() {
    let mut grid = WallGrid::with_dims(3, 3);
    assert!(!grid.has_passage((1, 1), (2, 1)));
    grid.clear_wall_between((1, 1), (2, 1));
    assert!(grid.has_passage((1, 1), (2, 1)));
    assert!(grid.has_passage((2, 1), (1, 1)));
    grid.clear_wall_between((1, 2), (1, 1));
    assert!(grid.has_passage((1, 1), (1, 2)));
    grid.add_wall_between((2, 1), (1, 1));
    assert!(!grid.has_passage((1, 1), (2, 1)));
    assert!(grid.has_passage((1, 2), (1, 1)));
    grid.fill();
    assert!(!grid.has_passage((1, 1), (1, 2)));
}

#[test]
fn wall_grid_solves_along_passages() {
    let mut grid = WallGrid::with_dims(2, 3);
    grid.clear_wall_between((0, 0), (0, 1));
    grid.clear_wall_between((0, 1), (1, 1));
    grid.clear_wall_between((1, 1), (1, 2));
    grid.toggle_cell(0, 0, CellKind::Start);
    grid.toggle_cell(1, 2, CellKind::Goal);
    grid.solve_path();
    assert_eq!(grid.get_cell(0, 1), CellKind::Path);
    assert_eq!(grid.get_cell(1, 1), CellKind::Path);
    assert_eq!(grid.get_cell(0, 2), CellKind::Empty);
    assert_eq!(grid.get_cell(1, 0), CellKind::Empty);
}

#[test]
fn wall_grid_without_passages_finds_no_path() {
    let mut grid = WallGrid::with_dims(2, 2);
    grid.toggle_cell(0, 0, CellKind::Start);
    grid.toggle_cell(1, 1, CellKind::Goal);
    let before = grid.cells.clone();
    grid.solve_path();
    assert_eq!(grid.cells, before);
}

fn wall_off_corner<G: Grid>(grid: &mut G) -> CellKind {
    grid.set_cell(0, 0, CellKind::Wall);
    grid.get_cell(0, 0)
}

#[test]
fn both_variants_share_the_grid_interface() {
    let mut block = BlockGrid::with_dims(3, 3);
    let mut walls = WallGrid::with_dims(3, 3);
    assert_eq!(wall_off_corner(&mut block), CellKind::Wall);
    assert_eq!(wall_off_corner(&mut walls), CellKind::Wall);
    Grid::clear(&mut block);
    assert_eq!(Grid::get_cell(&block, 0, 0), CellKind::Empty);
    assert_eq!(Grid::dims(&walls).columns, 3);
}

#[test]
fn toggling_start_off_forgets_it() {
    let mut grid = BlockGrid::with_dims(3, 3);
    grid.toggle_cell(1, 1, CellKind::Start);
    grid.toggle_cell(2, 2, CellKind::Goal);
    assert_eq!(grid.toggle_cell(1, 1, CellKind::Start), CellKind::Start);
    assert_eq!(grid.get_cell(1, 1), CellKind::Empty);
    assert_eq!(grid.start, None);
    assert_eq!(grid.toggle_cell(2, 2, CellKind::Goal), CellKind::Goal);
    assert_eq!(grid.goal, None);
    let before = grid.cells.clone();
    assert!(!grid.step_solve_path());
    assert_eq!(grid.cells, before);
}

#[test]
fn toggling_drops_the_cached_graph() {
    let mut grid = BlockGrid::with_dims(3, 3);
    grid.toggle_cell(0, 0, CellKind::Start);
    assert_eq!(grid.make_graph(), Ok(()));
    grid.toggle_cell(1, 1, CellKind::Wall);
    assert!(grid.graph.is_none());
    assert!(grid.solver.is_none());
}
