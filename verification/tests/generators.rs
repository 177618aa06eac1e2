use pathlab::mazes::{
    list_builtin, maze_boxed, maze_open, maze_starting, maze_wall_split, BuiltinMaze, Cell, MazeGrid,
};
use pathlab::solver::{Algorithm, Heuristic, Solver, SolverStatus};

/// Asserts that every row has the same length and returns `(rows, cols)`.
fn rectangular_dims(maze: &MazeGrid) -> (usize, usize) {
    let rows = maze.len();
    let cols = maze.first().map(|r| r.len()).unwrap_or(0);
    for (i, row) in maze.iter().enumerate() {
        assert_eq!(row.len(), cols, "row {i} has irregular width");
    }
    (rows, cols)
}

#[test]
fn open_has_requested_dimensions() {
    let m = maze_open(7, 4);
    assert_eq!(rectangular_dims(&m), (7, 4));
}

#[test]
fn open_is_all_empty() {
    let m = maze_open(5, 5);
    for row in &m {
        for &cell in row {
            assert_eq!(cell, Cell::Empty);
        }
    }
}

#[test]
fn open_clamps_zero_to_one() {
    let m = maze_open(0, 0);
    assert_eq!(rectangular_dims(&m), (1, 1));
}

#[test]
fn wall_split_has_a_gap_in_the_middle_row() {
    let rows = 5;
    let cols = 7;
    let m = maze_wall_split(rows, cols);
    let mid_col = cols / 2;
    let mid_row = rows / 2;
    for (y, row) in m.iter().enumerate() {
        if y == mid_row {
            assert_eq!(row[mid_col], Cell::Empty, "gap row should be empty");
        } else {
            assert_eq!(row[mid_col], Cell::Wall, "row {y} centre should be a wall");
        }
    }
}

#[test]
fn wall_split_is_solvable_through_the_gap() {
    let m = maze_wall_split(5, 5);
    let mut s = Solver::new(Algorithm::BFS, Heuristic::Manhattan, (0, 0), (4, 0));
    for _ in 0..200 {
        s.step(&m);
        if s.finished() {
            break;
        }
    }
    assert_eq!(s.status(), SolverStatus::Found);
}

#[test]
fn boxed_has_full_border_of_walls() {
    let rows = 8;
    let cols = 10;
    let m = maze_boxed(rows, cols);
    assert_eq!(rectangular_dims(&m), (rows, cols));
    assert!(m.first().unwrap().iter().all(|&c| c == Cell::Wall), "top border");
    assert!(m.last().unwrap().iter().all(|&c| c == Cell::Wall), "bottom border");
    for (y, row) in m.iter().enumerate() {
        assert_eq!(row[0], Cell::Wall, "row {y} left border");
        assert_eq!(*row.last().unwrap(), Cell::Wall, "row {y} right border");
    }
}

#[test]
fn boxed_clamps_tiny_input_to_minimum() {
    let m = maze_boxed(1, 1);
    assert_eq!(rectangular_dims(&m), (3, 3));
}

#[test]
fn starting_maze_dimensions_are_pinned() {
    let m = maze_starting();
    assert_eq!(rectangular_dims(&m), (10, 10));
}

#[test]
fn starting_maze_has_default_endpoints_walkable() {
    let m = maze_starting();
    assert_eq!(m[1][1], Cell::Empty, "start cell must be walkable");
    assert_eq!(m[7][8], Cell::Empty, "end cell must be walkable");
}

#[test]
fn list_builtin_covers_every_variant() {
    assert_eq!(list_builtin().len(), 4);
}

#[test]
fn every_builtin_label_is_unique_and_non_empty() {
    let labels: Vec<&str> = list_builtin().iter().map(|m| m.label()).collect();
    for &l in &labels {
        assert!(!l.is_empty(), "empty label");
    }
    for (i, a) in labels.iter().enumerate() {
        for b in labels.iter().skip(i + 1) {
            assert_ne!(a, b, "duplicate label: {a}");
        }
    }
}

#[test]
fn every_builtin_generates_a_non_empty_maze() {
    for &b in list_builtin() {
        let m = b.generate(10, 10);
        let (rows, cols) = rectangular_dims(&m);
        assert!(rows > 0 && cols > 0, "{:?} produced empty maze", b);
    }
}

#[test]
fn builtin_list_order_and_labels() {
    assert_eq!(
        list_builtin(),
        &[BuiltinMaze::Starting, BuiltinMaze::Open, BuiltinMaze::WallSplit, BuiltinMaze::Boxed]
    );
    assert_eq!(BuiltinMaze::WallSplit.label(), "Wall Split");
    assert_eq!(BuiltinMaze::Starting.generate(3, 3), maze_starting());
    assert_eq!(BuiltinMaze::Boxed.generate(4, 5), maze_boxed(4, 5));
}

#[test]
fn boxed_inner_obstacles_follow_the_pattern() {
    let m = maze_boxed(8, 10);
    // Rows 2 and 4 carry walls at columns 2 and 5; row 3 has none inside.
    assert_eq!(m[2][2], Cell::Wall);
    assert_eq!(m[2][5], Cell::Wall);
    assert_eq!(m[4][5], Cell::Wall);
    assert_eq!(m[2][8], Cell::Empty);
    assert_eq!(m[2][3], Cell::Empty);
    assert!(m[3][1..9].iter().all(|&c| c == Cell::Empty));
}
