use pathlab::mazes::{maze_open, Cell};
use pathlab::solver::k_shortest_paths;

#[test]
fn k_equals_one_returns_shortest() {
    let maze = maze_open(4, 4);
    let paths = k_shortest_paths(&maze, (0, 0), (3, 3), 1);
    assert_eq!(paths.len(), 1);
    assert_eq!(paths[0].len(), 7);
}

#[test]
fn finds_multiple_distinct_paths() {
    let maze = maze_open(3, 3);
    let paths = k_shortest_paths(&maze, (0, 0), (2, 2), 5);
    assert!(paths.len() >= 2);
    for i in 0..paths.len() {
        for j in (i + 1)..paths.len() {
            assert_ne!(paths[i], paths[j], "paths {i} and {j} are identical");
        }
    }
}

#[test]
fn paths_are_sorted_by_length() {
    let maze = maze_open(4, 4);
    let paths = k_shortest_paths(&maze, (0, 0), (3, 3), 8);
    for w in paths.windows(2) {
        assert!(w[0].len() <= w[1].len());
    }
}

#[test]
fn empty_when_unreachable() {
    let mut maze = maze_open(3, 3);
    for row in maze.iter_mut().take(3) {
        row[1] = Cell::Wall;
    }
    let paths = k_shortest_paths(&maze, (0, 0), (2, 2), 5);
    assert!(paths.is_empty());
}

#[test]
fn k_zero_returns_empty() {
    let maze = maze_open(3, 3);
    assert!(k_shortest_paths(&maze, (0, 0), (2, 2), 0).is_empty());
}

#[test]
fn all_six_monotone_routes_of_a_3x3_grid_come_first() {
    let maze = maze_open(3, 3);
    let paths = k_shortest_paths(&maze, (0, 0), (2, 2), 7);
    assert_eq!(paths.len(), 7);
    for p in &paths[..6] {
        assert_eq!(p.len(), 5);
    }
    assert!(paths[6].len() > 5);
    assert_eq!(paths[0], vec![(0, 0), (1, 0), (2, 0), (2, 1), (2, 2)]);
}

#[test]
fn a_wall_start_has_no_route() {
    let mut maze = maze_open(2, 2);
    maze[0][0] = Cell::Wall;
    assert!(k_shortest_paths(&maze, (0, 0), (1, 1), 3).is_empty());
}

#[test]
fn asking_for_more_routes_than_exist_lists_them_all() {
    // A 2x2 open grid has exactly two loopless routes between opposite corners.
    let maze = maze_open(2, 2);
    let paths = k_shortest_paths(&maze, (0, 0), (1, 1), 5);
    assert_eq!(paths.len(), 2);
    assert!(paths.contains(&vec![(0, 0), (1, 0), (1, 1)]));
    assert!(paths.contains(&vec![(0, 0), (0, 1), (1, 1)]));
}
