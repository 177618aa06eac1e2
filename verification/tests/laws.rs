use pathlab::mazes::{maze_boxed, maze_open, maze_wall_split, Cell};
use pathlab::solver::{neighbors_4, Algorithm, Heuristic, Solver, SolverStatus};

fn solve(alg: Algorithm, h: Heuristic, maze: &Vec<Vec<Cell>>, start: (usize, usize), goal: (usize, usize)) -> Solver {
    let mut s = Solver::new(alg, h, start, goal);
    for _ in 0..100_000 {
        s.step(maze);
        if s.finished() {
            return s;
        }
    }
    panic!("solver did not finish");
}

#[test]
fn expansions_never_exceed_the_cell_count() {
    let maze = maze_boxed(9, 11);
    for &alg in &[Algorithm::AStar, Algorithm::BFS, Algorithm::DFS] {
        let s = solve(alg, Heuristic::Zero, &maze, (1, 1), (0, 0));
        assert_eq!(s.status(), SolverStatus::NoPath);
        assert!(s.closed_cells().len() <= 9 * 11 + 1);
        let mut seen = s.closed_cells().to_vec();
        seen.sort();
        seen.dedup();
        assert_eq!(seen.len(), s.closed_cells().len());
    }
}

#[test]
fn every_heuristic_gives_a_shortest_path() {
    let maze = maze_wall_split(7, 9);
    let bfs = solve(Algorithm::BFS, Heuristic::Manhattan, &maze, (0, 0), (8, 6));
    for &h in Heuristic::all() {
        let a = solve(Algorithm::AStar, h, &maze, (0, 0), (8, 6));
        assert_eq!(a.status(), SolverStatus::Found);
        assert_eq!(a.path().len(), bfs.path().len());
    }
    // Through the single gap at row 3: 4 + 3 + 3 + 4 moves.
    assert_eq!(bfs.path().len(), 15);
}

#[test]
fn dfs_paths_can_be_longer_but_still_arrive() {
    let maze = maze_open(5, 5);
    let d = solve(Algorithm::DFS, Heuristic::Manhattan, &maze, (0, 0), (4, 4));
    assert_eq!(d.status(), SolverStatus::Found);
    assert!(d.path().len() >= 9);
}

#[test]
fn heuristics_are_symmetric_admissible_and_consistent() {
    let maze = maze_open(6, 6);
    let goal = (4, 1);
    for &h in Heuristic::all() {
        for x in 0..6 {
            for y in 0..6 {
                let a = (x, y);
                assert_eq!(h.estimate(a, goal), h.estimate(goal, a));
                // Admissible: at most one move's cost per Manhattan move.
                let moves = (x.abs_diff(goal.0) + y.abs_diff(goal.1)) as u128;
                assert!(h.estimate(a, goal) <= 1024 * moves);
                // Consistent: a move changes the estimate by at most one move's cost.
                for n in neighbors_4(a, &maze) {
                    assert!(h.estimate(a, goal) <= 1024 + h.estimate(n, goal));
                }
            }
        }
    }
}
