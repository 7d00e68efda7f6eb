use mazes::generators::aldous_broder::AldousBroder;
use mazes::generators::division::{choose_divide, RecursiveDivider};
use mazes::generators::prim::RandPrims;
use mazes::generators::Generator;
use mazes::grids::{CellKind, GridKind};

/// Whether every Empty cell off the border can be reached from every other
/// through Empty cells.
fn empty_cells_connected(cells: &[CellKind], rows: usize, cols: usize) -> bool {
    let interior = |i: usize| {
        let (r, c) = (i / cols, i % cols);
        r > 0 && r + 1 < rows && c > 0 && c + 1 < cols
    };
    let start = match (0..cells.len()).find(|&i| cells[i] == CellKind::Empty && interior(i)) {
        Some(s) => s,
        None => return true,
    };
    let mut seen = vec![false; cells.len()];
    let mut stack = vec![start];
    seen[start] = true;
    while let Some(i) = stack.pop() {
        let (r, c) = (i / cols, i % cols);
        let mut next = Vec::new();
        if r + 1 < rows { next.push(i + cols); }
        if r > 0 { next.push(i - cols); }
        if c + 1 < cols { next.push(i + 1); }
        if c > 0 { next.push(i - 1); }
        for j in next {
            if !seen[j] && cells[j] == CellKind::Empty {
                seen[j] = true;
                stack.push(j);
            }
        }
    }
    (0..cells.len()).all(|i| !(cells[i] == CellKind::Empty && interior(i)) || seen[i])
}

#[test]
fn prim_maze_is_connected() {
    for _ in 0..20 {
        let mut gen = RandPrims::new(11, 13, GridKind::Block);
        let cells = gen.generate_maze();
        assert!(gen.is_done());
        assert_eq!(cells.len(), 143);
        assert!(cells.iter().all(|k| *k == CellKind::Empty || *k == CellKind::Wall));
        assert!(empty_cells_connected(&cells, 11, 13));
    }
}

#[test]
fn prim_seed_is_odd() {
    for _ in 0..20 {
        let gen = RandPrims::new(9, 9, GridKind::Block);
        assert_eq!(gen.last_passage.0 % 2, 1);
        assert_eq!(gen.last_passage.1 % 2, 1);
        assert_eq!(gen.walls, vec![gen.last_passage]);
    }
}

#[test]
fn prim_carves_one_cell_per_step() {
    let mut gen = RandPrims::new(9, 9, GridKind::Block);
    let before = gen.grid.snapshot().iter().filter(|k| **k == CellKind::Wall).count();
    let cells = gen.next_step();
    let walls_after = cells.iter().filter(|k| **k == CellKind::Wall).count();
    assert!(walls_after < before);
    assert!(!gen.is_done());
}

#[test]
fn prim_finishes_with_one_write_when_frontier_is_empty() {
    let mut gen = RandPrims::new(9, 9, GridKind::Block);
    gen.walls.clear();
    let (r, c) = gen.last_passage;
    let cells = gen.next_step();
    assert!(gen.is_done());
    assert_eq!(cells[r * 9 + c], CellKind::Empty);
    assert_eq!(cells.iter().filter(|k| **k != CellKind::Wall).count(), 1);
}

#[test]
fn aldous_broder_visits_everything_and_keeps_border() {
    let mut gen = AldousBroder::new(7, 7, GridKind::Block);
    assert!(!gen.is_done());
    let cells = gen.generate_maze();
    assert!(gen.is_done());
    assert!(gen.visited.iter().all(|v| *v));
    for i in 0..7 {
        assert_eq!(cells[i], CellKind::Wall);
        assert_eq!(cells[6 * 7 + i], CellKind::Wall);
        assert_eq!(cells[i * 7], CellKind::Wall);
        assert_eq!(cells[i * 7 + 6], CellKind::Wall);
    }
}

#[test]
fn aldous_broder_maze_is_connected() {
    for _ in 0..10 {
        let mut gen = AldousBroder::new(9, 11, GridKind::Block);
        let cells = gen.generate_maze();
        assert!(cells.iter().all(|k| *k == CellKind::Empty || *k == CellKind::Wall));
        assert!(empty_cells_connected(&cells, 9, 11));
    }
}

#[test]
fn aldous_broder_visited_count_never_drops() {
    let mut gen = AldousBroder::new(6, 8, GridKind::Block);
    let mut last = gen.visited.iter().filter(|v| **v).count();
    assert_eq!(last, 48 - 4 * 6);
    let mut steps = 0;
    while !gen.is_done() && steps < 100_000 {
        gen.next_step();
        let now = gen.visited.iter().filter(|v| **v).count();
        assert!(now >= last);
        if gen.is_done() {
            assert_eq!(now, 48);
        }
        last = now;
        steps += 1;
    }
    assert!(gen.is_done());
}

#[test]
fn aldous_broder_on_wall_grid_opens_a_spanning_tree() {
    let mut gen = AldousBroder::new(4, 5, GridKind::Wall);
    gen.generate_maze();
    assert!(gen.is_done());
    assert!(gen.visited.iter().all(|v| *v));
}

#[test]
fn division_draws_only_walls_and_keeps_size() {
    for _ in 0..20 {
        let mut gen = RecursiveDivider::new(15, 11);
        let cells = gen.generate_maze();
        assert_eq!(cells.len(), 165);
        assert!(cells.iter().all(|k| *k == CellKind::Empty || *k == CellKind::Wall));
        assert!(cells.iter().any(|k| *k == CellKind::Wall));
    }
}

#[test]
fn division_leaves_a_narrow_box_untouched() {
    let mut gen = RecursiveDivider::new(4, 4);
    let cells = gen.generate_maze();
    assert!(cells.iter().all(|k| *k == CellKind::Empty));
}

#[test]
fn one_division_opens_at_most_three_arms() {
    for _ in 0..50 {
        let mut gen = RecursiveDivider::new(9, 9);
        let (dx, dy, opened, protected) = gen.divide_once(1, 1, 7, 7, &vec![]);
        assert!((1..7).contains(&dx) && (1..7).contains(&dy));
        assert!(opened.len() <= 3);
        let cells = gen.grid.cells.clone();
        for r in 0..=7 {
            for c in 0..=7 {
                let on = (r == dy) || (c == dx);
                let k = cells[r * 9 + c];
                if opened.contains(&(r, c)) {
                    assert_eq!(k, CellKind::Empty);
                } else if on {
                    assert_eq!(k, CellKind::Wall);
                } else {
                    assert_eq!(k, CellKind::Empty);
                }
            }
        }
        for &(r, c) in &protected {
            assert!(opened.iter().any(|&(a, b)| r.abs_diff(a) + c.abs_diff(b) == 1));
        }
    }
}

#[test]
fn cross_skips_an_undivided_axis() {
    let mut gen = RecursiveDivider::new(5, 5);
    gen.draw_cross(1, 1, 3, 3, 2, 2, false, true, &vec![]);
    let cells = gen.grid.cells.clone();
    assert_eq!(cells[2 * 5 + 1], CellKind::Empty);
    assert_eq!(cells[1 * 5 + 2], CellKind::Wall);
}

#[test]
fn prim_frontier_holds_only_walls() {
    for _ in 0..10 {
        let mut gen = RandPrims::new(11, 11, GridKind::Block);
        while !gen.is_done() {
            let cells = gen.next_step();
            assert!(gen.walls.iter().all(|&(r, c)| cells[r * 11 + c] == CellKind::Wall));
        }
        assert!(gen.walls.is_empty());
    }
}

#[test]
fn aldous_broder_walk_always_moves() {
    let mut gen = AldousBroder::new(6, 6, GridKind::Block);
    let mut last = gen.current_cell;
    for _ in 0..50 {
        if gen.is_done() {
            break;
        }
        let all = gen.visited.iter().all(|v| *v);
        gen.next_step();
        if !all {
            assert_ne!(gen.current_cell, last);
        }
        last = gen.current_cell;
    }
}

#[test]
fn generation_counts_its_steps() {
    let mut gen = AldousBroder::new(5, 5, GridKind::Block);
    gen.generate_maze();
    assert!(gen.is_done());
    assert!(gen.steps > 0);
    let mut prims = RandPrims::new(7, 7, GridKind::Block);
    prims.generate_maze();
    assert!(prims.is_done());
    assert!(prims.steps > 0);
}

#[test]
fn division_leaves_tiny_grid_untouched() {
    let mut gen = RecursiveDivider::new(3, 3);
    let cells = gen.generate_maze();
    assert!(cells.iter().all(|k| *k == CellKind::Empty));
}

#[test]
fn cross_is_drawn_and_protected_cells_reopened() {
    let mut gen = RecursiveDivider::new(5, 5);
    gen.draw_cross(1, 1, 3, 3, 2, 2, true, true, &vec![(2, 3), (0, 2)]);
    let cells = gen.grid.cells.clone();
    let at = |r: usize, c: usize| cells[r * 5 + c];
    for c in 0..=3 {
        if c != 3 {
            assert_eq!(at(2, c), CellKind::Wall);
        }
    }
    for r in 0..=3 {
        if r != 0 {
            assert_eq!(at(r, 2), CellKind::Wall);
        }
    }
    assert_eq!(at(2, 3), CellKind::Empty);
    assert_eq!(at(0, 2), CellKind::Empty);
    assert_eq!(at(2, 4), CellKind::Empty);
    assert_eq!(at(4, 2), CellKind::Empty);
    assert_eq!(at(1, 1), CellKind::Empty);
}

#[test]
fn divide_point_stays_inside_the_axis() {
    for _ in 0..200 {
        let d = choose_divide(3, 8);
        assert!((3..8).contains(&d));
    }
    assert_eq!(choose_divide(5, 5), 5);
    assert_eq!(choose_divide(5, 6), 5);
    assert_eq!(choose_divide(6, 2), 6);
}

fn run_to_end<G: Generator>(gen: &mut G) -> Vec<CellKind> {
    let cells = gen.generate_maze();
    assert!(gen.is_done());
    cells
}

#[test]
fn steppable_generators_share_one_interface() {
    let mut a = AldousBroder::new(5, 7, GridKind::Block);
    let mut p = RandPrims::new(5, 7, GridKind::Block);
    assert_eq!(run_to_end(&mut a).len(), 35);
    assert_eq!(run_to_end(&mut p).len(), 35);
    assert_eq!(a.grid.dims().rows, 5);
    assert_eq!(p.grid.dims().columns, 7);
}

#[test]
fn prim_with_empty_frontier_finishes_even_after_the_step_cap() {
    let mut gen = RandPrims::new(7, 7, GridKind::Block);
    gen.walls.clear();
    gen.steps = usize::MAX;
    gen.generate_maze();
    assert!(gen.is_done());
}

#[test]
fn prim_adds_wall_neighbours_of_the_new_last_passage() {
    let mut gen = RandPrims::new(11, 11, GridKind::Block);
    for _ in 0..20 {
        let cells = gen.next_step();
        if gen.is_done() {
            break;
        }
        let (r, c) = gen.last_passage;
        for (nr, nc) in [(r + 1, c), (r - 1, c), (r, c + 1), (r, c - 1)] {
            let border = nr == 0 || nr == 10 || nc == 0 || nc == 10;
            if !border && cells[nr * 11 + nc] == CellKind::Wall {
                assert!(gen.walls.contains(&(nr, nc)));
            }
        }
    }
}
