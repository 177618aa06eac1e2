//! Enum of supported pathfinding algorithms.

use vstd::prelude::*;

verus! {

/// Which pathfinding strategy the solver uses.
///
/// A* takes a heuristic; BFS and DFS are uninformed. K-Shortest finds the
/// top-`k` distinct paths in one shot and does not support step-by-step
/// visualisation.
#[derive(Clone, Copy, PartialEq, Eq, Debug, Structural)]
pub enum Algorithm {
    /// Informed search using `f = g + h`.
    AStar,
    /// Breadth-first search: shortest paths on an unweighted grid.
    BFS,
    /// Depth-first search: reaches the goal, not necessarily by a shortest path.
    DFS,
    /// Yen's algorithm: the `k` shortest loopless paths, in one call.
    KShortest,
}

/// The label shown for each algorithm.
pub open spec fn spec_algorithm_label(a: Algorithm) -> Seq<char> {
    match a {
        Algorithm::AStar => "A*"@,
        Algorithm::BFS => "BFS"@,
        Algorithm::DFS => "DFS"@,
        Algorithm::KShortest => "K-Shortest paths"@,
    }
}

/// Every algorithm has a label of its own, and none is empty.
pub proof fn lemma_algorithm_labels_distinct(a: Algorithm, b: Algorithm)
    ensures
        spec_algorithm_label(a).len() > 0,
        a != b ==> spec_algorithm_label(a) != spec_algorithm_label(b),
{
    reveal_strlit("A*");
    reveal_strlit("BFS");
    reveal_strlit("DFS");
    reveal_strlit("K-Shortest paths");
    if a != b {
        assert(spec_algorithm_label(a).len() != spec_algorithm_label(b).len() || spec_algorithm_label(a)[0]
            != spec_algorithm_label(b)[0]);
    }
}

impl Algorithm {
    pub fn label(self) -> (r: &'static str)
        ensures
            r@ == spec_algorithm_label(self),
    {
        match self {
            Algorithm::AStar => "A*",
            Algorithm::BFS => "BFS",
            Algorithm::DFS => "DFS",
            Algorithm::KShortest => "K-Shortest paths",
        }
    }

    /// All variants in display order.
    pub fn all() -> (r: &'static [Algorithm])
        ensures
            r@ == seq![Algorithm::AStar, Algorithm::BFS, Algorithm::DFS, Algorithm::KShortest],
    {
        &[Algorithm::AStar, Algorithm::BFS, Algorithm::DFS, Algorithm::KShortest]
    }

    /// Whether this algorithm uses a heuristic.
    pub fn uses_heuristic(self) -> (r: bool)
        ensures
            r == (self == Algorithm::AStar),
    {
        match self {
            Algorithm::AStar => true,
            _ => false,
        }
    }

    /// Whether this algorithm can be advanced one node at a time.
    pub fn supports_stepping(self) -> (r: bool)
        ensures
            r == (self != Algorithm::KShortest),
    {
        match self {
            Algorithm::KShortest => false,
            _ => true,
        }
    }

    /// Whether this algorithm produces multiple paths.
    pub fn is_multi_path(self) -> (r: bool)
        ensures
            r == (self == Algorithm::KShortest),
    {
        match self {
            Algorithm::KShortest => true,
            _ => false,
        }
    }
}

impl Default for Algorithm {
    /// A* is selected on first launch.
    fn default() -> (r: Self)
        ensures
            r == Algorithm::AStar,
    {
        Algorithm::AStar
    }
}

} // verus!
