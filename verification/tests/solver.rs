use pathlab::mazes::{maze_open, maze_starting, Cell, MazeGrid};
use pathlab::solver::{neighbors_4, Algorithm, Coord, Heuristic, Solver, SolverStatus};

fn solve_to_completion(s: &mut Solver, maze: &MazeGrid) {
    for _ in 0..10_000 {
        s.step(maze);
        if s.finished() {
            return;
        }
    }
    panic!("solver did not finish");
}

/// Each move of `p` goes to an adjacent open cell of `maze`.
fn is_walk(p: &[Coord], maze: &MazeGrid) -> bool {
    p.windows(2).all(|w| {
        let (a, b) = (w[0], w[1]);
        let adjacent = (a.0.abs_diff(b.0) + a.1.abs_diff(b.1)) == 1;
        adjacent && maze[b.1][b.0] == Cell::Empty
    })
}

#[test]
fn astar_finds_shortest_on_open_grid() {
    let maze = maze_open(5, 5);
    let mut s = Solver::new(Algorithm::AStar, Heuristic::Manhattan, (0, 0), (4, 4));
    solve_to_completion(&mut s, &maze);
    assert_eq!(s.status(), SolverStatus::Found);
    assert_eq!(s.path().len(), 9);
}

#[test]
fn bfs_matches_astar_length() {
    let maze = maze_open(6, 6);
    let mut a = Solver::new(Algorithm::AStar, Heuristic::Manhattan, (0, 0), (5, 5));
    let mut b = Solver::new(Algorithm::BFS, Heuristic::Manhattan, (0, 0), (5, 5));
    solve_to_completion(&mut a, &maze);
    solve_to_completion(&mut b, &maze);
    assert_eq!(a.path().len(), b.path().len());
}

#[test]
fn no_path_through_walls() {
    let mut maze = maze_open(3, 3);
    for row in maze.iter_mut().take(3) {
        row[1] = Cell::Wall;
    }
    let mut s = Solver::new(Algorithm::BFS, Heuristic::Manhattan, (0, 0), (2, 2));
    solve_to_completion(&mut s, &maze);
    assert_eq!(s.status(), SolverStatus::NoPath);
}

#[test]
fn dfs_reaches_goal_even_if_not_shortest() {
    let maze = maze_open(4, 4);
    let mut s = Solver::new(Algorithm::DFS, Heuristic::Manhattan, (0, 0), (3, 3));
    solve_to_completion(&mut s, &maze);
    assert_eq!(s.status(), SolverStatus::Found);
    assert_eq!(*s.path().first().unwrap(), (0, 0));
    assert_eq!(*s.path().last().unwrap(), (3, 3));
}

#[test]
fn k_shortest_returns_multiple_paths() {
    let maze = maze_open(3, 3);
    let mut s = Solver::new(Algorithm::KShortest, Heuristic::Manhattan, (0, 0), (2, 2)).with_k(4);
    s.step(&maze);
    assert!(s.finished());
    assert_eq!(s.status(), SolverStatus::Found);
    assert!(s.paths().len() >= 2);
    assert_eq!(s.path(), s.paths()[0]);
}

#[test]
fn single_path_algorithms_populate_paths() {
    let maze = maze_open(4, 4);
    let mut s = Solver::new(Algorithm::BFS, Heuristic::Manhattan, (0, 0), (3, 3));
    solve_to_completion(&mut s, &maze);
    assert_eq!(s.paths().len(), 1);
    assert_eq!(s.paths()[0], s.path());
}

#[test]
fn neighbours_come_right_left_down_up_inside_the_grid() {
    let maze = maze_open(3, 4);
    assert_eq!(neighbors_4((1, 1), &maze), vec![(2, 1), (0, 1), (1, 2), (1, 0)]);
    assert_eq!(neighbors_4((0, 0), &maze), vec![(1, 0), (0, 1)]);
    assert_eq!(neighbors_4((3, 2), &maze), vec![(2, 2), (3, 1)]);
    assert_eq!(neighbors_4((9, 9), &maze), Vec::<Coord>::new());
}

#[test]
fn fresh_solver_holds_only_the_start() {
    let s = Solver::new(Algorithm::BFS, Heuristic::Manhattan, (2, 3), (0, 0));
    assert_eq!(s.status(), SolverStatus::Running);
    assert!(!s.finished());
    assert_eq!(s.open_cells(), &[(2, 3)]);
    assert!(s.closed_cells().is_empty());
    assert!(s.path().is_empty());
    assert!(s.paths().is_empty());
    assert_eq!(s.algorithm(), Algorithm::BFS);
    // K-Shortest starts with the start cell on the frontier too, and its one
    // step leaves the frontier empty.
    let mut k = Solver::new(Algorithm::KShortest, Heuristic::Manhattan, (2, 3), (0, 0));
    assert_eq!(k.open_cells(), &[(2, 3)]);
    k.step(&maze_open(4, 4));
    assert_eq!(k.status(), SolverStatus::Found);
    assert!(k.open_cells().is_empty());
}

#[test]
fn bfs_expands_in_queue_order() {
    let maze = maze_open(3, 3);
    let mut s = Solver::new(Algorithm::BFS, Heuristic::Manhattan, (1, 1), (0, 0));
    s.step(&maze);
    assert_eq!(s.closed_cells(), &[(1, 1)]);
    assert_eq!(s.open_cells(), &[(2, 1), (0, 1), (1, 2), (1, 0)]);
    s.step(&maze);
    assert_eq!(s.closed_cells(), &[(1, 1), (2, 1)]);
    assert_eq!(s.open_cells(), &[(0, 1), (1, 2), (1, 0), (2, 2), (2, 0)]);
}

#[test]
fn dfs_expands_the_newest_cell() {
    let maze = maze_open(3, 3);
    let mut s = Solver::new(Algorithm::DFS, Heuristic::Manhattan, (1, 1), (2, 2));
    s.step(&maze);
    s.step(&maze);
    assert_eq!(s.closed_cells(), &[(1, 1), (1, 0)]);
    assert_eq!(s.open_cells(), &[(2, 1), (0, 1), (1, 2), (2, 0), (0, 0)]);
}

#[test]
fn found_paths_are_walks_through_open_cells() {
    let maze = maze_starting();
    for &alg in &[Algorithm::AStar, Algorithm::BFS, Algorithm::DFS] {
        for &h in Heuristic::all() {
            let mut s = Solver::new(alg, h, (1, 1), (8, 7));
            solve_to_completion(&mut s, &maze);
            assert_eq!(s.status(), SolverStatus::Found);
            assert_eq!(s.path().first(), Some(&(1, 1)));
            assert_eq!(s.path().last(), Some(&(8, 7)));
            assert!(is_walk(s.path(), &maze));
        }
    }
}

#[test]
fn astar_and_bfs_find_the_shortest_route_on_the_demo_maze() {
    let maze = maze_starting();
    let mut b = Solver::new(Algorithm::BFS, Heuristic::Manhattan, (1, 1), (8, 7));
    solve_to_completion(&mut b, &maze);
    assert_eq!(b.path().len(), 14);
    let mut a = Solver::new(Algorithm::AStar, Heuristic::Manhattan, (1, 1), (8, 7));
    solve_to_completion(&mut a, &maze);
    assert_eq!(a.path().len(), 14);
}

#[test]
fn start_on_goal_is_found_at_once() {
    let maze = maze_open(2, 2);
    let mut s = Solver::new(Algorithm::AStar, Heuristic::Zero, (1, 0), (1, 0));
    s.step(&maze);
    assert_eq!(s.status(), SolverStatus::Found);
    assert_eq!(s.path(), &[(1, 0)]);
    assert!(s.closed_cells().is_empty());
}

#[test]
fn unreachable_goal_outside_the_grid_gives_no_path() {
    let maze = maze_open(2, 2);
    for &alg in &[Algorithm::AStar, Algorithm::BFS, Algorithm::DFS, Algorithm::KShortest] {
        let mut s = Solver::new(alg, Heuristic::Manhattan, (0, 0), (5, 5));
        solve_to_completion(&mut s, &maze);
        assert_eq!(s.status(), SolverStatus::NoPath);
        assert!(s.path().is_empty());
    }
}

#[test]
fn finished_solver_ignores_further_steps() {
    let maze = maze_open(3, 3);
    let mut s = Solver::new(Algorithm::BFS, Heuristic::Manhattan, (0, 0), (2, 0));
    solve_to_completion(&mut s, &maze);
    let path: Vec<Coord> = s.path().to_vec();
    let closed: Vec<Coord> = s.closed_cells().to_vec();
    s.step(&maze);
    assert_eq!(s.path(), &path[..]);
    assert_eq!(s.closed_cells(), &closed[..]);
    assert_eq!(s.status(), SolverStatus::Found);
}

#[test]
fn with_k_raises_zero_to_one() {
    let maze = maze_open(3, 3);
    let mut s = Solver::new(Algorithm::KShortest, Heuristic::Manhattan, (0, 0), (2, 2)).with_k(0);
    s.step(&maze);
    assert_eq!(s.paths().len(), 1);
    assert_eq!(s.path().len(), 5);
}

#[test]
fn a_start_on_a_wall_has_no_path() {
    let maze = vec![vec![Cell::Wall, Cell::Empty, Cell::Empty]];
    for &alg in &[Algorithm::AStar, Algorithm::BFS, Algorithm::DFS, Algorithm::KShortest] {
        let mut s = Solver::new(alg, Heuristic::Manhattan, (0, 0), (2, 0));
        s.step(&maze);
        assert!(s.finished());
        assert_eq!(s.status(), SolverStatus::NoPath);
        assert!(s.path().is_empty());
        assert!(s.paths().is_empty());
        assert!(s.open_cells().is_empty());
    }
}

#[test]
fn a_goal_on_a_wall_has_no_path() {
    let maze = vec![vec![Cell::Empty, Cell::Empty, Cell::Wall]];
    for &alg in &[Algorithm::AStar, Algorithm::BFS, Algorithm::DFS, Algorithm::KShortest] {
        let mut s = Solver::new(alg, Heuristic::Manhattan, (0, 0), (2, 0));
        s.step(&maze);
        assert_eq!(s.status(), SolverStatus::NoPath);
        assert!(s.path().is_empty());
        assert!(s.closed_cells().is_empty());
    }
}

#[test]
fn a_wall_start_that_is_also_the_goal_has_no_path() {
    let maze = vec![vec![Cell::Wall]];
    let mut s = Solver::new(Algorithm::BFS, Heuristic::Zero, (0, 0), (0, 0));
    s.step(&maze);
    assert_eq!(s.status(), SolverStatus::NoPath);
    assert!(s.path().is_empty());
}
