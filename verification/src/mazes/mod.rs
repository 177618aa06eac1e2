//! Maze data types, built-in generators, and PBM file I/O.
//!
//! A maze is a `Vec<Vec<Cell>>` indexed `maze[y][x]`.

pub mod cell;
pub mod generators;
pub mod pbm;
pub mod grid_ops;

pub use cell::{Cell, MazeGrid};
pub use generators::{list_builtin, maze_boxed, maze_open, maze_starting, maze_wall_split, BuiltinMaze};
pub use pbm::{maze_from_pbm_str, maze_to_pbm_str};
