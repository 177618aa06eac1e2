//! Pathfinding: a step-by-step solver for A*, BFS and DFS, and Yen's
//! k-shortest-paths search.

pub mod algorithm;
pub mod coord_map;
pub mod heuristic;
pub mod k_paths;
pub mod search;
pub mod walks;
pub mod yen;

pub use algorithm::Algorithm;
pub use heuristic::Heuristic;
pub use k_paths::k_shortest_paths;
pub use search::{neighbors_4, Solver, SolverStatus};
pub use walks::Coord;
