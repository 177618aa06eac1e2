//! Basic cell type used by every maze.

use vstd::prelude::*;

verus! {

/// A single tile in a maze.
#[derive(Clone, Copy, PartialEq, Eq, Debug, Structural)]
pub enum Cell {
    /// Walkable.
    Empty,
    /// Blocked - the solver may not step here.
    Wall,
}

impl Cell {
    /// Returns `true` if a solver may step onto this cell.
    pub fn is_walkable(self) -> (r: bool)
        ensures
            r <==> self == Cell::Empty,
    {
        match self {
            Cell::Empty => true,
            Cell::Wall => false,
        }
    }

    /// Flips the cell between [`Cell::Empty`] and [`Cell::Wall`].
    pub fn invert(self) -> (r: Self)
        ensures
            r == spec_invert(self),
    {
        match self {
            Cell::Empty => Cell::Wall,
            Cell::Wall => Cell::Empty,
        }
    }
}

/// The other cell kind.
pub open spec fn spec_invert(c: Cell) -> Cell {
    match c {
        Cell::Empty => Cell::Wall,
        Cell::Wall => Cell::Empty,
    }
}

/// Inverting changes a cell, and inverting twice gives it back.
pub proof fn lemma_invert_flips(c: Cell)
    ensures
        spec_invert(c) != c,
        spec_invert(spec_invert(c)) == c,
{
}

/// A maze is a rectangular grid of [`Cell`]s indexed `maze[y][x]`.
pub type MazeGrid = Vec<Vec<Cell>>;

/// The mathematical content of a maze: its rows, each a sequence of cells.
pub open spec fn grid_view(m: &MazeGrid) -> Seq<Seq<Cell>> {
    m@.map_values(|r: Vec<Cell>| r@)
}

/// Number of columns of a grid, read from its first row (0 when it has no row).
pub open spec fn grid_width(g: Seq<Seq<Cell>>) -> nat {
    if g.len() > 0 {
        g[0].len()
    } else {
        0
    }
}

/// Every row has the width of the first one.
pub open spec fn is_rectangular(g: Seq<Seq<Cell>>) -> bool {
    forall|y: int| 0 <= y < g.len() ==> #[trigger] g[y].len() == grid_width(g)
}

/// The grid whose cell at `(x, y)` is `f(x, y)`, with `rows` rows and `cols` columns.
pub open spec fn grid_from_fn(rows: nat, cols: nat, f: spec_fn(int, int) -> Cell) -> Seq<Seq<Cell>> {
    Seq::new(rows, |y: int| Seq::new(cols, |x: int| f(x, y)))
}

} // verus!
