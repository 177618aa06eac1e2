//! Built-in maze generators.
//!
//! Each generator returns a fresh [`MazeGrid`]; every preset is also reachable
//! through the [`BuiltinMaze`] enum and [`list_builtin`].

use vstd::prelude::*;

use super::cell::{self, Cell, MazeGrid};
use crate::solver::walks::{self, Coord};

verus! {

/// Identifier for every built-in preset.
#[derive(Clone, Copy, PartialEq, Eq, Debug, Structural)]
pub enum BuiltinMaze {
    Starting,
    Open,
    WallSplit,
    Boxed,
}

/// The larger of two naturals.
pub open spec fn max_nat(a: nat, b: nat) -> nat {
    if a >= b {
        a
    } else {
        b
    }
}

/// An all-empty grid of at least one row and one column.
pub open spec fn spec_open(rows: nat, cols: nat) -> Seq<Seq<Cell>> {
    cell::grid_from_fn(max_nat(rows, 1), max_nat(cols, 1), |x: int, y: int| Cell::Empty)
}

/// Cell of the wall-split preset of `rows` x `cols` (already clamped to >= 1):
/// a wall down column `cols / 2`, open on row `rows / 2`.
pub open spec fn wall_split_cell(rows: nat, cols: nat, x: int, y: int) -> Cell {
    if x == cols as int / 2 && y != rows as int / 2 {
        Cell::Wall
    } else {
        Cell::Empty
    }
}

/// The wall-split preset.
pub open spec fn spec_wall_split(rows: nat, cols: nat) -> Seq<Seq<Cell>> {
    let r = max_nat(rows, 1);
    let c = max_nat(cols, 1);
    cell::grid_from_fn(r, c, |x: int, y: int| wall_split_cell(r, c, x, y))
}

/// Cell of the boxed preset of `rows` x `cols` (already clamped to >= 3): a
/// border of walls, plus a wall on every other row from row 2 and every third
/// column from column 2, strictly inside the two-cell margin.
pub open spec fn boxed_cell(rows: nat, cols: nat, x: int, y: int) -> Cell {
    if y == 0 || y == rows - 1 || x == 0 || x == cols - 1 {
        Cell::Wall
    } else if 2 <= y < rows - 2 && (y - 2) % 2 == 0 && 2 <= x < cols - 2 && (x - 2) % 3 == 0 {
        Cell::Wall
    } else {
        Cell::Empty
    }
}

/// The boxed preset.
pub open spec fn spec_boxed(rows: nat, cols: nat) -> Seq<Seq<Cell>> {
    let r = max_nat(rows, 3);
    let c = max_nat(cols, 3);
    cell::grid_from_fn(r, c, |x: int, y: int| boxed_cell(r, c, x, y))
}

/// The hand-crafted demo layout, `1` = walkable and `0` = wall.
pub open spec fn starting_layout() -> Seq<Seq<u8>> {
    seq![
        seq![0u8, 0, 0, 0, 0, 0, 0, 0, 0, 0],
        seq![0u8, 1, 1, 1, 1, 1, 1, 1, 1, 0],
        seq![0u8, 1, 0, 0, 0, 0, 0, 0, 1, 0],
        seq![0u8, 1, 0, 1, 1, 1, 1, 0, 1, 0],
        seq![0u8, 1, 0, 1, 0, 0, 1, 0, 1, 0],
        seq![0u8, 1, 0, 1, 0, 1, 1, 0, 1, 0],
        seq![0u8, 1, 0, 1, 0, 1, 0, 0, 1, 0],
        seq![0u8, 1, 1, 1, 0, 1, 1, 1, 1, 0],
        seq![0u8, 0, 0, 1, 0, 0, 0, 0, 0, 0],
        seq![0u8, 0, 0, 0, 0, 0, 0, 0, 0, 0],
    ]
}

/// The demo maze: the layout with `1` read as empty and anything else as wall.
pub open spec fn spec_starting() -> Seq<Seq<Cell>> {
    cell::grid_from_fn(
        10,
        10,
        |x: int, y: int| if starting_layout()[y][x] == 1 { Cell::Empty } else { Cell::Wall },
    )
}

/// The maze a preset produces for the requested size.
pub open spec fn spec_generate(m: BuiltinMaze, rows: nat, cols: nat) -> Seq<Seq<Cell>> {
    match m {
        BuiltinMaze::Starting => spec_starting(),
        BuiltinMaze::Open => spec_open(rows, cols),
        BuiltinMaze::WallSplit => spec_wall_split(rows, cols),
        BuiltinMaze::Boxed => spec_boxed(rows, cols),
    }
}

/// Every preset is a rectangular grid with at least one row and one column.
pub proof fn lemma_generate_rectangular(m: BuiltinMaze, rows: nat, cols: nat)
    ensures
        cell::is_rectangular(spec_generate(m, rows, cols)),
        spec_generate(m, rows, cols).len() >= 1,
        cell::grid_width(spec_generate(m, rows, cols)) >= 1,
{
    match m {
        BuiltinMaze::Starting => {
            assert(spec_generate(m, rows, cols)[0].len() == 10);
        },
        BuiltinMaze::Open => {
            assert(spec_generate(m, rows, cols)[0].len() == max_nat(cols, 1));
        },
        BuiltinMaze::WallSplit => {
            assert(spec_generate(m, rows, cols)[0].len() == max_nat(cols, 1));
        },
        BuiltinMaze::Boxed => {
            assert(spec_generate(m, rows, cols)[0].len() == max_nat(cols, 3));
        },
    }
}

/// The open preset has the requested size (at least one row and one
/// column) and every cell is empty.
pub proof fn lemma_open_shape(rows: nat, cols: nat)
    ensures
        spec_open(rows, cols).len() == (if rows == 0 { 1 } else { rows }),
        forall|y: int|
            0 <= y < spec_open(rows, cols).len() ==> (#[trigger] spec_open(rows, cols)[y]).len() == (if cols == 0 {
                1
            } else {
                cols
            }),
        forall|y: int, x: int|
            0 <= y < spec_open(rows, cols).len() && 0 <= x < spec_open(rows, cols)[y].len() ==> #[trigger] spec_open(
                rows,
                cols,
            )[y][x] == Cell::Empty,
{
}

/// The wall-split preset has the requested size (at least one row and one
/// column); its middle column `c / 2` is a wall on every row but the middle
/// one `r / 2`, which is its one opening, and every other cell is empty.
pub proof fn lemma_wall_split_shape(rows: nat, cols: nat)
    ensures
        ({
            let g = spec_wall_split(rows, cols);
            let r: int = if rows == 0 { 1 } else { rows as int };
            let c: int = if cols == 0 { 1 } else { cols as int };
            &&& g.len() == r
            &&& forall|y: int| 0 <= y < r ==> (#[trigger] g[y]).len() == c
            &&& g[r / 2][c / 2] == Cell::Empty
            &&& forall|y: int| 0 <= y < r && y != r / 2 ==> #[trigger] g[y][c / 2] == Cell::Wall
            &&& forall|y: int, x: int| 0 <= y < r && 0 <= x < c && x != c / 2 ==> #[trigger] g[y][x] == Cell::Empty
        }),
{
}

/// The boxed preset is at least three cells each way; its border is all
/// walls and the ring of cells just inside the border is all empty.
pub proof fn lemma_boxed_shape(rows: nat, cols: nat)
    ensures
        ({
            let g = spec_boxed(rows, cols);
            let r: int = if rows < 3 { 3 } else { rows as int };
            let c: int = if cols < 3 { 3 } else { cols as int };
            &&& g.len() == r
            &&& forall|y: int| 0 <= y < r ==> (#[trigger] g[y]).len() == c
            &&& forall|y: int, x: int|
                0 <= y < r && 0 <= x < c && (y == 0 || y == r - 1 || x == 0 || x == c - 1) ==> #[trigger] g[y][x]
                    == Cell::Wall
            &&& forall|y: int, x: int|
                1 <= y < r - 1 && 1 <= x < c - 1 && (y == 1 || y == r - 2 || x == 1 || x == c - 2) ==> #[trigger] g[y][x]
                    == Cell::Empty
        }),
{
}

/// The demo maze is ten by ten, walled all round, and the default start
/// `(1, 1)` and end `(8, 7)` are empty.
pub proof fn lemma_starting_shape()
    ensures
        spec_starting().len() == 10,
        forall|y: int| 0 <= y < 10 ==> (#[trigger] spec_starting()[y]).len() == 10,
        forall|y: int, x: int|
            0 <= y < 10 && 0 <= x < 10 && (y == 0 || y == 9 || x == 0 || x == 9) ==> #[trigger] spec_starting()[y][x]
                == Cell::Wall,
        spec_starting()[1][1] == Cell::Empty,
        spec_starting()[7][8] == Cell::Empty,
{
    let l = starting_layout();
    assert(l[0] =~= seq![0u8, 0, 0, 0, 0, 0, 0, 0, 0, 0]);
    assert(l[9] =~= seq![0u8, 0, 0, 0, 0, 0, 0, 0, 0, 0]);
    assert forall|y: int| 0 <= y < 10 implies l[y][0] == 0 && l[y][9] == 0 && #[trigger] l[y].len() == 10 by {
        assert(0 <= y < 10);
    }
}

/// Through its one opening the two halves of the wall-split preset are
/// joined: between any two open cells there is a walk.
pub proof fn lemma_wall_split_connected(rows: nat, cols: nat, p: Coord, q: Coord)
    requires
        rows <= usize::MAX,
        cols <= usize::MAX,
        walks::is_open(spec_wall_split(rows, cols), p),
        walks::is_open(spec_wall_split(rows, cols), q),
    ensures
        walks::connected(spec_wall_split(rows, cols), p, q),
{
    let g = spec_wall_split(rows, cols);
    let r: int = if rows == 0 { 1 } else { rows as int };
    let c: int = if cols == 0 { 1 } else { cols as int };
    lemma_wall_split_shape(rows, cols);
    assert(cell::grid_width(g) == c) by {
        assert(g[0].len() == c);
    }
    let mid = (r / 2) as usize;
    // Every cell of the middle row is open.
    assert forall|x: int| 0 <= x < c implies #[trigger] g[r / 2][x] == Cell::Empty by {}
    // A cell of the middle column is open only on the middle row.
    assert(p.0 == c / 2 ==> p.1 == mid) by {
        if p.0 == c / 2 && p.1 != mid {
            assert(g[p.1 as int][c / 2] == Cell::Wall);
        }
    }
    assert(q.0 == c / 2 ==> q.1 == mid) by {
        if q.0 == c / 2 && q.1 != mid {
            assert(g[q.1 as int][c / 2] == Cell::Wall);
        }
    }
    let w1 = walks::column_run(p.0, p.1, mid);
    assert forall|i: int| 0 <= i < w1.len() implies walks::is_open(g, #[trigger] w1[i]) by {
        let y = w1[i].1 as int;
        assert(w1[i].0 == p.0);
        assert((p.1 <= y <= mid) || (mid <= y <= p.1));
        if p.0 == c / 2 {
            assert(y == mid);
        }
    }
    walks::lemma_column_run(g, p.0, p.1, mid);
    let w2 = walks::row_run(mid, p.0, q.0);
    assert forall|i: int| 0 <= i < w2.len() implies walks::is_open(g, #[trigger] w2[i]) by {
        let x = w2[i].0 as int;
        assert(w2[i].1 == mid);
        assert((p.0 <= x <= q.0) || (q.0 <= x <= p.0));
    }
    walks::lemma_row_run(g, mid, p.0, q.0);
    let w3 = walks::column_run(q.0, mid, q.1);
    assert forall|i: int| 0 <= i < w3.len() implies walks::is_open(g, #[trigger] w3[i]) by {
        let y = w3[i].1 as int;
        assert(w3[i].0 == q.0);
        assert((q.1 <= y <= mid) || (mid <= y <= q.1));
        if q.0 == c / 2 {
            assert(y == mid);
        }
    }
    walks::lemma_column_run(g, q.0, mid, q.1);
    walks::lemma_walk_join(g, w1, w2, p);
    let w12 = w1 + w2.drop_first();
    walks::lemma_walk_join(g, w12, w3, p);
    let w = w12 + w3.drop_first();
    assert(walks::walk_from(g, w, p) && w.last() == q);
}

/// The demo maze can be solved between its default endpoints: a walk leads
/// from `(1, 1)` to `(8, 7)`.
pub proof fn lemma_starting_solvable()
    ensures
        walks::connected(spec_starting(), (1, 1), (8, 7)),
{
    let g = spec_starting();
    let l = starting_layout();
    assert(l[1] =~= seq![0u8, 1, 1, 1, 1, 1, 1, 1, 1, 0]);
    assert(g[0].len() == 10);
    assert(cell::grid_width(g) == 10);
    let w1 = walks::row_run(1, 1, 8);
    assert forall|i: int| 0 <= i < w1.len() implies walks::is_open(g, #[trigger] w1[i]) by {
        assert(w1[i] == ((1 + i) as usize, 1usize));
        assert(l[1][1 + i] == 1);
    }
    walks::lemma_row_run(g, 1, 1, 8);
    let w2 = walks::column_run(8, 1, 7);
    assert(l[1][8] == 1 && l[2][8] == 1 && l[3][8] == 1 && l[4][8] == 1);
    assert(l[5][8] == 1 && l[6][8] == 1 && l[7][8] == 1);
    assert forall|i: int| 0 <= i < w2.len() implies walks::is_open(g, #[trigger] w2[i]) by {
        assert(w2[i] == (8usize, (1 + i) as usize));
        assert(0 <= i < 7);
        assert(l[1 + i][8] == 1);
    }
    walks::lemma_column_run(g, 8, 1, 7);
    walks::lemma_walk_join(g, w1, w2, (1, 1));
    let w = w1 + w2.drop_first();
    assert(walks::walk_from(g, w, (1, 1)) && w.last() == (8usize, 7usize));
}

impl BuiltinMaze {
    /// Human-readable label used in the UI dropdown.
    pub fn label(self) -> (r: &'static str)
        ensures
            r@ == spec_builtin_label(self),
    {
        match self {
            BuiltinMaze::Starting => "Starting",
            BuiltinMaze::Open => "Open",
            BuiltinMaze::WallSplit => "Wall Split",
            BuiltinMaze::Boxed => "Boxed",
        }
    }

    /// Produce the maze, using `rows`/`cols` where the preset is parametric.
    /// [`BuiltinMaze::Starting`] has a fixed size and ignores them.
    pub fn generate(self, rows: usize, cols: usize) -> (r: MazeGrid)
        ensures
            cell::grid_view(&r) == spec_generate(self, rows as nat, cols as nat),
    {
        match self {
            BuiltinMaze::Starting => maze_starting(),
            BuiltinMaze::Open => maze_open(rows, cols),
            BuiltinMaze::WallSplit => maze_wall_split(rows, cols),
            BuiltinMaze::Boxed => maze_boxed(rows, cols),
        }
    }
}

/// The label of each preset.
pub open spec fn spec_builtin_label(m: BuiltinMaze) -> Seq<char> {
    match m {
        BuiltinMaze::Starting => "Starting"@,
        BuiltinMaze::Open => "Open"@,
        BuiltinMaze::WallSplit => "Wall Split"@,
        BuiltinMaze::Boxed => "Boxed"@,
    }
}

/// Every preset has a label of its own, and none is empty.
pub proof fn lemma_builtin_labels_distinct(a: BuiltinMaze, b: BuiltinMaze)
    ensures
        spec_builtin_label(a).len() > 0,
        a != b ==> spec_builtin_label(a) != spec_builtin_label(b),
{
    reveal_strlit("Starting");
    reveal_strlit("Open");
    reveal_strlit("Wall Split");
    reveal_strlit("Boxed");
    if a != b {
        assert(spec_builtin_label(a).len() != spec_builtin_label(b).len() || spec_builtin_label(a)[0]
            != spec_builtin_label(b)[0]);
    }
}

/// Returns every built-in maze in the order they should appear in the UI.
pub fn list_builtin() -> (r: &'static [BuiltinMaze])
    ensures
        r@ == seq![
            BuiltinMaze::Starting,
            BuiltinMaze::Open,
            BuiltinMaze::WallSplit,
            BuiltinMaze::Boxed,
        ],
{
    &[BuiltinMaze::Starting, BuiltinMaze::Open, BuiltinMaze::WallSplit, BuiltinMaze::Boxed]
}

/// Completely empty maze - a blank canvas for drawing walls.
pub fn maze_open(rows: usize, cols: usize) -> (r: MazeGrid)
    ensures
        cell::grid_view(&r) == spec_open(rows as nat, cols as nat),
{
    let nrows = if rows > 1 { rows } else { 1 };
    let ncols = if cols > 1 { cols } else { 1 };
    let mut maze: MazeGrid = Vec::new();
    for y in 0..nrows
        invariant
            maze@.len() == y,
            forall|j: int|
                0 <= j < y ==> #[trigger] maze@[j]@ == Seq::new(ncols as nat, |x: int| Cell::Empty),
    {
        let mut row: Vec<Cell> = Vec::new();
        for x in 0..ncols
            invariant
                row@ == Seq::new(x as nat, |i: int| Cell::Empty),
        {
            row.push(Cell::Empty);
        }
        maze.push(row);
    }
    assert(cell::grid_view(&maze) =~~= spec_open(rows as nat, cols as nat));
    maze
}

/// A vertical wall down the middle with a single one-cell opening.
pub fn maze_wall_split(rows: usize, cols: usize) -> (r: MazeGrid)
    ensures
        cell::grid_view(&r) == spec_wall_split(rows as nat, cols as nat),
{
    let nrows = if rows > 1 { rows } else { 1 };
    let ncols = if cols > 1 { cols } else { 1 };
    let mid = ncols / 2;
    let gap = nrows / 2;
    let mut maze: MazeGrid = Vec::new();
    for y in 0..nrows
        invariant
            maze@.len() == y,
            mid == ncols / 2,
            gap == nrows / 2,
            forall|j: int|
                0 <= j < y ==> #[trigger] maze@[j]@ == Seq::new(
                    ncols as nat,
                    |x: int| wall_split_cell(nrows as nat, ncols as nat, x, j),
                ),
    {
        let mut row: Vec<Cell> = Vec::new();
        for x in 0..ncols
            invariant
                mid == ncols / 2,
                gap == nrows / 2,
                row@ == Seq::new(x as nat, |i: int| wall_split_cell(nrows as nat, ncols as nat, i, y as int)),
        {
            let c = if x == mid && y != gap { Cell::Wall } else { Cell::Empty };
            row.push(c);
            assert(row@ =~= Seq::new((x + 1) as nat, |i: int| wall_split_cell(nrows as nat, ncols as nat, i, y as int)));
        }
        maze.push(row);
    }
    assert(cell::grid_view(&maze) =~~= spec_wall_split(rows as nat, cols as nat));
    maze
}

/// Bordered maze with a regular grid of inner obstacles.
pub fn maze_boxed(rows: usize, cols: usize) -> (r: MazeGrid)
    ensures
        cell::grid_view(&r) == spec_boxed(rows as nat, cols as nat),
{
    let nrows = if rows > 3 { rows } else { 3 };
    let ncols = if cols > 3 { cols } else { 3 };
    let mut maze: MazeGrid = Vec::new();
    for y in 0..nrows
        invariant
            nrows >= 3,
            ncols >= 3,
            maze@.len() == y,
            forall|j: int|
                0 <= j < y ==> #[trigger] maze@[j]@ == Seq::new(
                    ncols as nat,
                    |x: int| boxed_cell(nrows as nat, ncols as nat, x, j),
                ),
    {
        let mut row: Vec<Cell> = Vec::new();
        for x in 0..ncols
            invariant
                nrows >= 3,
                ncols >= 3,
                y < nrows,
                row@ == Seq::new(x as nat, |i: int| boxed_cell(nrows as nat, ncols as nat, i, y as int)),
        {
            let border = y == 0 || y == nrows - 1 || x == 0 || x == ncols - 1;
            let obstacle = 2 <= y && y < nrows - 2 && (y - 2) % 2 == 0 && 2 <= x && x < ncols - 2
                && (x - 2) % 3 == 0;
            let c = if border || obstacle { Cell::Wall } else { Cell::Empty };
            row.push(c);
            assert(row@ =~= Seq::new((x + 1) as nat, |i: int| boxed_cell(nrows as nat, ncols as nat, i, y as int)));
        }
        maze.push(row);
    }
    assert(cell::grid_view(&maze) =~~= spec_boxed(rows as nat, cols as nat));
    maze
}

/// The hand-crafted demo maze shown on first launch.
pub fn maze_starting() -> (r: MazeGrid)
    ensures
        cell::grid_view(&r) == spec_starting(),
{
    let layout: [[u8; 10]; 10] = [
        [0, 0, 0, 0, 0, 0, 0, 0, 0, 0],
        [0, 1, 1, 1, 1, 1, 1, 1, 1, 0],
        [0, 1, 0, 0, 0, 0, 0, 0, 1, 0],
        [0, 1, 0, 1, 1, 1, 1, 0, 1, 0],
        [0, 1, 0, 1, 0, 0, 1, 0, 1, 0],
        [0, 1, 0, 1, 0, 1, 1, 0, 1, 0],
        [0, 1, 0, 1, 0, 1, 0, 0, 1, 0],
        [0, 1, 1, 1, 0, 1, 1, 1, 1, 0],
        [0, 0, 0, 1, 0, 0, 0, 0, 0, 0],
        [0, 0, 0, 0, 0, 0, 0, 0, 0, 0],
    ];
    assert(layout@.map_values(|r: [u8; 10]| r@) =~= starting_layout());
    let mut maze: MazeGrid = Vec::new();
    for y in 0..10usize
        invariant
            layout@.map_values(|r: [u8; 10]| r@) == starting_layout(),
            maze@.len() == y,
            forall|j: int|
                0 <= j < y ==> #[trigger] maze@[j]@ == Seq::new(
                    10,
                    |x: int| if starting_layout()[j][x] == 1 { Cell::Empty } else { Cell::Wall },
                ),
    {
        let line = layout[y];
        assert(line@ == starting_layout()[y as int]);
        let mut row: Vec<Cell> = Vec::new();
        for x in 0..10usize
            invariant
                line@ == starting_layout()[y as int],
                y < 10,
                row@ == Seq::new(
                    x as nat,
                    |i: int| if starting_layout()[y as int][i] == 1 { Cell::Empty } else { Cell::Wall },
                ),
        {
            let c = if line[x] == 1 { Cell::Empty } else { Cell::Wall };
            row.push(c);
            assert(row@ =~= Seq::new(
                (x + 1) as nat,
                |i: int| if starting_layout()[y as int][i] == 1 { Cell::Empty } else { Cell::Wall },
            ));
        }
        maze.push(row);
    }
    assert(cell::grid_view(&maze) =~~= spec_starting());
    maze
}

} // verus!
