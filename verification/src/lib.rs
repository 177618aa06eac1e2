//! Maze data structures, PBM file I/O, pathfinding algorithms and the
//! editor state machine of a pathfinding visualiser.

pub mod mazes;
pub mod app;
pub mod platform;
pub mod solver;
