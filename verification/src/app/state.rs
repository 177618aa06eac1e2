//! Application state: the maze being edited, the solver settings, the
//! running solver and the frame-by-frame driver that steps it.
//!
//! Rendering (cell sizes, the canvas, panels) lives in the front end; this
//! module holds everything the front end decides from.

use vstd::prelude::*;

use crate::mazes::cell::{self, Cell, MazeGrid};
use crate::mazes::generators::{self, BuiltinMaze};
use crate::platform::fileio::{self, FileInbox};
use crate::solver::algorithm::Algorithm;
use crate::solver::heuristic::Heuristic;
use crate::solver::search::{self, Solver, SolverStatus};

use super::undo::{self, UndoStack};

verus! {

/// What a pointer on the canvas does: edit walls, pick an endpoint, or
/// nothing. The modes are mutually exclusive.
#[derive(Clone, Copy, PartialEq, Eq, Debug, Structural)]
pub enum InteractionMode {
    Idle,
    DrawWall,
    EraseWall,
    PickStart,
    PickEnd,
}

/// A cell position, `x` the column and `y` the row.
#[derive(Clone, Copy, PartialEq, Eq, Debug, Structural)]
pub struct Point {
    pub x: usize,
    pub y: usize,
}

/// `v`, lowered to the last index below `n` (0 when `n` is 0).
pub open spec fn clamp_to(v: usize, n: usize) -> usize {
    if n == 0 {
        0
    } else if v < n {
        v
    } else {
        (n - 1) as usize
    }
}

/// `p` moved inside a grid of `cols` columns and `rows` rows.
pub open spec fn clamp_point(p: Point, cols: usize, rows: usize) -> Point {
    Point { x: clamp_to(p.x, cols), y: clamp_to(p.y, rows) }
}

/// Milliseconds from `then` to `now`, and 0 if `now` is earlier.
pub open spec fn elapsed(now: u64, then: u64) -> int {
    if now >= then {
        now - then
    } else {
        0
    }
}

/// The application object, apart from what only concerns drawing.
pub struct MazeApp {
    maze: MazeGrid,
    selected_maze: BuiltinMaze,
    rows: usize,
    cols: usize,
    start: Point,
    end: Point,
    algorithm: Algorithm,
    heuristic: Heuristic,
    speed_ms: u32,
    /// How long a finished path is shown before loop mode restarts the
    /// solve. Has no effect when loop mode is off.
    loop_dwell_ms: u32,
    /// How many paths K-Shortest looks for.
    k_paths: usize,
    solver: Option<Solver>,
    /// Clock readings, in milliseconds.
    last_step_ms: u64,
    last_finish_ms: Option<u64>,
    /// Single-shot "Solve": step at the chosen speed until finished.
    auto_run: bool,
    /// Restart after each finish.
    loop_mode: bool,
    /// A single step was requested.
    step_pending: bool,
    interaction: InteractionMode,
    file_inbox: FileInbox,
    last_file_error: Option<String>,
    undo: UndoStack,
}

impl MazeApp {
    pub closed spec fn view_maze(&self) -> Seq<Seq<Cell>> {
        cell::grid_view(&self.maze)
    }

    pub closed spec fn view_selected(&self) -> BuiltinMaze {
        self.selected_maze
    }

    pub closed spec fn view_rows(&self) -> usize {
        self.rows
    }

    pub closed spec fn view_cols(&self) -> usize {
        self.cols
    }

    pub closed spec fn view_start(&self) -> Point {
        self.start
    }

    pub closed spec fn view_end(&self) -> Point {
        self.end
    }

    pub closed spec fn view_algorithm(&self) -> Algorithm {
        self.algorithm
    }

    pub closed spec fn view_heuristic(&self) -> Heuristic {
        self.heuristic
    }

    pub closed spec fn view_speed(&self) -> u32 {
        self.speed_ms
    }

    pub closed spec fn view_dwell(&self) -> u32 {
        self.loop_dwell_ms
    }

    pub closed spec fn view_k_paths(&self) -> usize {
        self.k_paths
    }

    pub closed spec fn view_solver(&self) -> Option<Solver> {
        self.solver
    }

    pub closed spec fn view_last_step(&self) -> u64 {
        self.last_step_ms
    }

    pub closed spec fn view_last_finish(&self) -> Option<u64> {
        self.last_finish_ms
    }

    pub closed spec fn view_auto_run(&self) -> bool {
        self.auto_run
    }

    pub closed spec fn view_loop_mode(&self) -> bool {
        self.loop_mode
    }

    pub closed spec fn view_step_pending(&self) -> bool {
        self.step_pending
    }

    pub closed spec fn view_interaction(&self) -> InteractionMode {
        self.interaction
    }

    pub closed spec fn view_inbox(&self) -> Option<Result<Seq<Seq<Cell>>, Seq<char>>> {
        self.file_inbox.view()
    }

    pub closed spec fn view_file_error(&self) -> Option<Seq<char>> {
        match self.last_file_error {
            Some(e) => Some(e@),
            None => None,
        }
    }

    pub closed spec fn view_undo(&self) -> Seq<Seq<Seq<Cell>>> {
        self.undo@
    }

    /// The maze has `rows` rows of `cols` cells, every undo snapshot is
    /// rectangular, and the solver (if any) is consistent.
    pub closed spec fn wf(&self) -> bool {
        &&& self.rows == self.maze@.len()
        &&& forall|y: int| 0 <= y < self.maze@.len() ==> #[trigger] self.maze@[y]@.len() == self.cols
        &&& forall|i: int| 0 <= i < self.undo@.len() ==> cell::is_rectangular(#[trigger] self.undo@[i])
        &&& self.solver matches Some(s) ==> s.wf()
    }
}

/// The maze, its size, the endpoints and the undo history agree.
pub open spec fn grid_same(a: MazeApp, b: MazeApp) -> bool {
    &&& a.view_maze() == b.view_maze()
    &&& a.view_rows() == b.view_rows()
    &&& a.view_cols() == b.view_cols()
    &&& a.view_start() == b.view_start()
    &&& a.view_end() == b.view_end()
    &&& a.view_undo() == b.view_undo()
}

/// The user's settings agree.
pub open spec fn settings_same(a: MazeApp, b: MazeApp) -> bool {
    &&& a.view_selected() == b.view_selected()
    &&& a.view_algorithm() == b.view_algorithm()
    &&& a.view_heuristic() == b.view_heuristic()
    &&& a.view_speed() == b.view_speed()
    &&& a.view_dwell() == b.view_dwell()
    &&& a.view_k_paths() == b.view_k_paths()
    &&& a.view_loop_mode() == b.view_loop_mode()
    &&& a.view_interaction() == b.view_interaction()
}

/// The solver and its timing and run flags agree.
pub open spec fn run_same(a: MazeApp, b: MazeApp) -> bool {
    &&& a.view_solver() == b.view_solver()
    &&& a.view_last_step() == b.view_last_step()
    &&& a.view_last_finish() == b.view_last_finish()
    &&& a.view_auto_run() == b.view_auto_run()
    &&& a.view_step_pending() == b.view_step_pending()
}

/// The file inbox and the last file error agree.
pub open spec fn files_same(a: MazeApp, b: MazeApp) -> bool {
    &&& a.view_inbox() == b.view_inbox()
    &&& a.view_file_error() == b.view_file_error()
}

/// `b` is `a` after the maze was replaced by `m`: the old maze goes on the
/// undo history, the size follows `m`, the endpoints are moved inside it and
/// the solver is dropped.
pub open spec fn replaced_maze(a: MazeApp, b: MazeApp, m: Seq<Seq<Cell>>) -> bool {
    let rows = m.len() as usize;
    let cols = cell::grid_width(m) as usize;
    &&& b.view_undo() == undo::push_spec(a.view_undo(), a.view_maze())
    &&& b.view_maze() == m
    &&& b.view_rows() == rows
    &&& b.view_cols() == cols
    &&& b.view_start() == clamp_point(a.view_start(), cols, rows)
    &&& b.view_end() == clamp_point(a.view_end(), cols, rows)
    &&& b.view_solver() is None
}

/// `b` is `a` after an edit of the maze into `m` (same size): the old maze
/// goes on the undo history and nothing else changes.
pub open spec fn edited(a: MazeApp, b: MazeApp, m: Seq<Seq<Cell>>) -> bool {
    &&& b.view_undo() == undo::push_spec(a.view_undo(), a.view_maze())
    &&& b.view_maze() == m
    &&& b.view_rows() == a.view_rows()
    &&& b.view_cols() == a.view_cols()
    &&& b.view_start() == a.view_start()
    &&& b.view_end() == a.view_end()
    &&& settings_same(a, b)
    &&& run_same(a, b)
    &&& files_same(a, b)
}

/// Every cell of `g` flipped between empty and wall.
pub open spec fn inverted(g: Seq<Seq<Cell>>) -> Seq<Seq<Cell>> {
    Seq::new(g.len(), |y: int| Seq::new(g[y].len(), |x: int| cell::spec_invert(g[y][x])))
}

/// `g` with every cell set to `c`.
pub open spec fn filled(g: Seq<Seq<Cell>>, c: Cell) -> Seq<Seq<Cell>> {
    Seq::new(g.len(), |y: int| Seq::new(g[y].len(), |x: int| c))
}

/// `g` with one more column, of cells `c`, on the right.
pub open spec fn with_column(g: Seq<Seq<Cell>>, c: Cell) -> Seq<Seq<Cell>> {
    Seq::new(g.len(), |y: int| g[y].push(c))
}

/// `g` without its rightmost column.
pub open spec fn without_column(g: Seq<Seq<Cell>>) -> Seq<Seq<Cell>> {
    Seq::new(g.len(), |y: int| g[y].drop_last())
}

/// A row of `n` cells `c`.
pub open spec fn row_of(n: nat, c: Cell) -> Seq<Cell> {
    Seq::new(n, |x: int| c)
}

/// Inverting keeps the shape of every grid and flips each cell.
pub proof fn lemma_inverted_cells(g: Seq<Seq<Cell>>)
    ensures
        inverted(g).len() == g.len(),
        forall|y: int| 0 <= y < g.len() ==> (#[trigger] inverted(g)[y]).len() == g[y].len(),
        forall|y: int, x: int|
            0 <= y < g.len() && 0 <= x < g[y].len() ==> #[trigger] inverted(g)[y][x] != g[y][x],
{
}

/// Filling keeps the shape of every grid and makes each cell `c`.
pub proof fn lemma_filled_cells(g: Seq<Seq<Cell>>, c: Cell)
    ensures
        filled(g, c).len() == g.len(),
        forall|y: int| 0 <= y < g.len() ==> (#[trigger] filled(g, c)[y]).len() == g[y].len(),
        forall|y: int, x: int| 0 <= y < g.len() && 0 <= x < g[y].len() ==> #[trigger] filled(g, c)[y][x] == c,
{
}

/// Adding a column keeps every row's cells and puts one cell `c` after them.
pub proof fn lemma_with_column_cells(g: Seq<Seq<Cell>>, c: Cell)
    ensures
        with_column(g, c).len() == g.len(),
        forall|y: int| 0 <= y < g.len() ==> (#[trigger] with_column(g, c)[y]).len() == g[y].len() + 1,
        forall|y: int, x: int|
            0 <= y < g.len() && 0 <= x < g[y].len() ==> #[trigger] with_column(g, c)[y][x] == g[y][x],
        forall|y: int| 0 <= y < g.len() ==> #[trigger] with_column(g, c)[y][g[y].len() as int] == c,
{
}

/// Removing a column drops the last cell of every row and keeps the others
/// where they were.
pub proof fn lemma_without_column_cells(g: Seq<Seq<Cell>>)
    ensures
        without_column(g).len() == g.len(),
        forall|y: int|
            0 <= y < g.len() && g[y].len() > 0 ==> (#[trigger] without_column(g)[y]).len() == g[y].len() - 1,
        forall|y: int, x: int|
            0 <= y < g.len() && 0 <= x < g[y].len() - 1 ==> #[trigger] without_column(g)[y][x] == g[y][x],
{
}

/// A new row of `n` cells `c` has `n` cells, each `c`.
pub proof fn lemma_row_of_cells(n: nat, c: Cell)
    ensures
        row_of(n, c).len() == n,
        forall|x: int| 0 <= x < n ==> #[trigger] row_of(n, c)[x] == c,
{
}

/// Setting one cell changes that cell to `c` and no other.
pub proof fn lemma_set_cell_cells(g: Seq<Seq<Cell>>, x: int, y: int, c: Cell)
    requires
        0 <= y < g.len(),
        0 <= x < g[y].len(),
    ensures
        set_cell(g, x, y, c).len() == g.len(),
        forall|j: int| 0 <= j < g.len() ==> (#[trigger] set_cell(g, x, y, c)[j]).len() == g[j].len(),
        set_cell(g, x, y, c)[y][x] == c,
        forall|j: int, i: int|
            0 <= j < g.len() && 0 <= i < g[j].len() && (j != y || i != x) ==> #[trigger] set_cell(g, x, y, c)[j][i]
                == g[j][i],
{
}

/// Moving a point inside a non-empty grid keeps each coordinate that is
/// already inside and puts any other on the last row or column.
pub proof fn lemma_clamp_point(p: Point, cols: usize, rows: usize)
    requires
        cols > 0,
        rows > 0,
    ensures
        clamp_point(p, cols, rows).x < cols,
        clamp_point(p, cols, rows).y < rows,
        p.x < cols ==> clamp_point(p, cols, rows).x == p.x,
        p.x >= cols ==> clamp_point(p, cols, rows).x == cols - 1,
        p.y < rows ==> clamp_point(p, cols, rows).y == p.y,
        p.y >= rows ==> clamp_point(p, cols, rows).y == rows - 1,
{
}

/// A new row of `n` cells `c`.
fn make_row(n: usize, c: Cell) -> (r: Vec<Cell>)
    ensures
        r@ == row_of(n as nat, c),
{
    let mut r: Vec<Cell> = Vec::new();
    let mut i: usize = 0;
    while i < n
        invariant
            i <= n,
            r@ == row_of(i as nat, c),
        decreases n - i,
    {
        r.push(c);
        i = i + 1;
        assert(r@ =~= row_of(i as nat, c));
    }
    r
}

impl MazeApp {
    /// The maze of a consistent state is rectangular, `cols` wide when it
    /// has a row.
    pub proof fn lemma_maze_rectangular(&self)
        requires
            self.wf(),
        ensures
            cell::is_rectangular(self.view_maze()),
            self.view_maze().len() == self.view_rows(),
            self.view_rows() > 0 ==> cell::grid_width(self.view_maze()) == self.view_cols(),
            forall|y: int| 0 <= y < self.view_maze().len() ==> #[trigger] self.view_maze()[y].len() == self.view_cols(),
    {
        let g = self.view_maze();
        assert forall|y: int| 0 <= y < g.len() implies #[trigger] g[y].len() == self.cols by {
            assert(g[y] == self.maze@[y]@);
        }
    }

    /// Snapshot the current maze onto the undo history. Call before any
    /// bulk change; a drag stroke calls it once, when it starts.
    pub fn snapshot_for_undo(&mut self)
        requires
            old(self).wf(),
        ensures
            final(self).wf(),
            final(self).view_undo() == undo::push_spec(old(self).view_undo(), old(self).view_maze()),
            final(self).view_maze() == old(self).view_maze(),
            final(self).view_rows() == old(self).view_rows(),
            final(self).view_cols() == old(self).view_cols(),
            final(self).view_start() == old(self).view_start(),
            final(self).view_end() == old(self).view_end(),
            settings_same(*old(self), *final(self)),
            run_same(*old(self), *final(self)),
            files_same(*old(self), *final(self)),
    {
        proof {
            self.lemma_maze_rectangular();
        }
        self.undo.push(&self.maze);
        proof {
            let h = old(self).undo@;
            let g = cell::grid_view(&self.maze);
            assert forall|i: int| 0 <= i < self.undo@.len() implies cell::is_rectangular(#[trigger] self.undo@[i]) by {
                if h.len() > 0 && h.last() == g {
                } else if h.len() >= undo::MAX_DEPTH {
                    assert(self.undo@ == h.drop_first().push(g));
                    if i < self.undo@.len() - 1 {
                        assert(self.undo@[i] == h[i + 1]);
                    }
                } else {
                    assert(self.undo@ == h.push(g));
                    if i < self.undo@.len() - 1 {
                        assert(self.undo@[i] == h[i]);
                    }
                }
            }
        }
    }

    /// Move the start and end markers inside the maze.
    pub fn clamp_endpoints(&mut self)
        requires
            old(self).wf(),
        ensures
            final(self).wf(),
            final(self).view_start() == clamp_point(old(self).view_start(), old(self).view_cols(), old(self).view_rows()),
            final(self).view_end() == clamp_point(old(self).view_end(), old(self).view_cols(), old(self).view_rows()),
            final(self).view_maze() == old(self).view_maze(),
            final(self).view_rows() == old(self).view_rows(),
            final(self).view_cols() == old(self).view_cols(),
            final(self).view_undo() == old(self).view_undo(),
            settings_same(*old(self), *final(self)),
            run_same(*old(self), *final(self)),
            files_same(*old(self), *final(self)),
    {
        let max_x = if self.cols > 0 { self.cols - 1 } else { 0 };
        let max_y = if self.rows > 0 { self.rows - 1 } else { 0 };
        self.start.x = if self.start.x < max_x { self.start.x } else { max_x };
        self.start.y = if self.start.y < max_y { self.start.y } else { max_y };
        self.end.x = if self.end.x < max_x { self.end.x } else { max_x };
        self.end.y = if self.end.y < max_y { self.end.y } else { max_y };
    }

    /// Replace the maze (a built-in preset or a loaded file).
    pub fn set_maze(&mut self, maze: MazeGrid)
        requires
            old(self).wf(),
            cell::is_rectangular(cell::grid_view(&maze)),
        ensures
            final(self).wf(),
            replaced_maze(*old(self), *final(self), cell::grid_view(&maze)),
            settings_same(*old(self), *final(self)),
            files_same(*old(self), *final(self)),
            final(self).view_last_step() == old(self).view_last_step(),
            final(self).view_last_finish() == old(self).view_last_finish(),
            final(self).view_auto_run() == old(self).view_auto_run(),
            final(self).view_step_pending() == old(self).view_step_pending(),
    {
        self.snapshot_for_undo();
        let rows = maze.len();
        let cols = if rows > 0 { maze[0].len() } else { 0 };
        proof {
            let g = cell::grid_view(&maze);
            assert forall|y: int| 0 <= y < maze@.len() implies #[trigger] maze@[y]@.len() == cols by {
                assert(g[y] == maze@[y]@);
                assert(g[y].len() == cell::grid_width(g));
                if rows > 0 {
                    assert(g[0] == maze@[0]@);
                }
            }
        }
        self.rows = rows;
        self.cols = cols;
        self.maze = maze;
        self.clamp_endpoints();
        self.solver = None;
    }

    /// Roll back the last snapshot. Returns whether anything changed.
    pub fn undo_last(&mut self) -> (r: bool)
        requires
            old(self).wf(),
        ensures
            final(self).wf(),
            r == (old(self).view_undo().len() > 0),
            r ==> undid(*old(self), *final(self)),
            !r ==> grid_same(*old(self), *final(self)) && settings_same(*old(self), *final(self)) && run_same(
                *old(self),
                *final(self),
            ) && files_same(*old(self), *final(self)),
    {
        let previous = match self.undo.pop() {
            None => {
                return false;
            },
            Some(m) => m,
        };
        proof {
            assert(old(self).undo@.last() == old(self).undo@[old(self).undo@.len() - 1]);
            assert(cell::is_rectangular(cell::grid_view(&previous)));
        }
        let rows = previous.len();
        let cols = if rows > 0 { previous[0].len() } else { 0 };
        proof {
            let g = cell::grid_view(&previous);
            assert forall|y: int| 0 <= y < previous@.len() implies #[trigger] previous@[y]@.len() == cols by {
                assert(g[y] == previous@[y]@);
                assert(g[y].len() == cell::grid_width(g));
                if rows > 0 {
                    assert(g[0] == previous@[0]@);
                }
            }
            assert forall|i: int| 0 <= i < self.undo@.len() implies cell::is_rectangular(#[trigger] self.undo@[i]) by {
                assert(self.undo@[i] == old(self).undo@[i]);
            }
        }
        self.maze = previous;
        self.rows = rows;
        self.cols = cols;
        self.clamp_endpoints();
        self.solver = None;
        true
    }
}

/// `b` is `a` after the last snapshot was rolled back: the maze is the
/// snapshot, which leaves the history; the size follows the maze, the
/// endpoints are moved inside it and the solver is dropped.
pub open spec fn undid(a: MazeApp, b: MazeApp) -> bool {
    let m = a.view_undo().last();
    let rows = m.len() as usize;
    let cols = cell::grid_width(m) as usize;
    &&& a.view_undo().len() > 0
    &&& b.view_undo() == a.view_undo().drop_last()
    &&& b.view_maze() == m
    &&& b.view_rows() == rows
    &&& b.view_cols() == cols
    &&& b.view_start() == clamp_point(a.view_start(), cols, rows)
    &&& b.view_end() == clamp_point(a.view_end(), cols, rows)
    &&& b.view_solver() is None
    &&& settings_same(a, b)
    &&& files_same(a, b)
    &&& b.view_last_step() == a.view_last_step()
    &&& b.view_last_finish() == a.view_last_finish()
    &&& b.view_auto_run() == a.view_auto_run()
    &&& b.view_step_pending() == a.view_step_pending()
}

/// Undo right after a single edit gives back the maze from before it. Each
/// edit (inverting, filling, adding or removing a row or column, replacing
/// the maze) pushes the maze it changes onto the history, so afterwards the
/// history is not empty and `undo_last` succeeds; the state it leaves has
/// the old maze, the old size (when that maze has a row) and no solver.
pub proof fn lemma_undo_after_change(a: MazeApp, b: MazeApp)
    requires
        a.wf(),
        b.view_undo() == undo::push_spec(a.view_undo(), a.view_maze()),
    ensures
        b.view_undo().len() > 0,
        forall|c: MazeApp|
            #[trigger] undid(b, c) ==> {
                &&& c.view_maze() == a.view_maze()
                &&& c.view_solver() is None
                &&& a.view_maze().len() > 0 ==> c.view_rows() == a.view_rows() && c.view_cols() == a.view_cols()
            },
{
    undo::lemma_push_then_top(a.view_undo(), a.view_maze());
    if a.maze@.len() > 0 {
        assert(a.maze@[0]@.len() == a.cols);
        assert(cell::grid_view(&a.maze)[0] == a.maze@[0]@);
    }
}


impl MazeApp {
    /// Flip every cell between empty and wall.
    pub fn invert_maze(&mut self)
        requires
            old(self).wf(),
        ensures
            final(self).wf(),
            edited(*old(self), *final(self), inverted(old(self).view_maze())),
    {
        self.snapshot_for_undo();
        let ghost g = cell::grid_view(&self.maze);
        let mut out: MazeGrid = Vec::new();
        let mut y: usize = 0;
        while y < self.maze.len()
            invariant
                g == cell::grid_view(&self.maze),
                y <= self.maze@.len(),
                out@.len() == y,
                forall|j: int| 0 <= j < y ==> #[trigger] out@[j]@ == inverted(g)[j],
                forall|j: int| 0 <= j < y ==> out@[j]@.len() == self.cols,
                forall|j: int| 0 <= j < self.maze@.len() ==> #[trigger] self.maze@[j]@.len() == self.cols,
            decreases self.maze@.len() - y,
        {
            let row = &self.maze[y];
            let mut new_row: Vec<Cell> = Vec::new();
            let mut x: usize = 0;
            while x < row.len()
                invariant
                    row@ == g[y as int],
                    x <= row@.len(),
                    new_row@ == Seq::new(x as nat, |i: int| cell::spec_invert(row@[i])),
                decreases row@.len() - x,
            {
                new_row.push(row[x].invert());
                x = x + 1;
                assert(new_row@ =~= Seq::new(x as nat, |i: int| cell::spec_invert(row@[i])));
            }
            assert(new_row@ =~= inverted(g)[y as int]);
            out.push(new_row);
            y = y + 1;
        }
        proof {
            assert(cell::grid_view(&out) =~= inverted(g));
        }
        self.maze = out;
    }

    /// Set every cell to `c`.
    pub fn fill_with(&mut self, c: Cell)
        requires
            old(self).wf(),
        ensures
            final(self).wf(),
            edited(*old(self), *final(self), filled(old(self).view_maze(), c)),
    {
        self.snapshot_for_undo();
        let ghost g = cell::grid_view(&self.maze);
        let mut out: MazeGrid = Vec::new();
        let mut y: usize = 0;
        while y < self.maze.len()
            invariant
                g == cell::grid_view(&self.maze),
                y <= self.maze@.len(),
                out@.len() == y,
                forall|j: int| 0 <= j < y ==> #[trigger] out@[j]@ == filled(g, c)[j],
                forall|j: int| 0 <= j < y ==> out@[j]@.len() == self.cols,
                forall|j: int| 0 <= j < self.maze@.len() ==> #[trigger] self.maze@[j]@.len() == self.cols,
            decreases self.maze@.len() - y,
        {
            let n = self.maze[y].len();
            let new_row = make_row(n, c);
            assert(new_row@ =~= filled(g, c)[y as int]);
            out.push(new_row);
            y = y + 1;
        }
        proof {
            assert(cell::grid_view(&out) =~= filled(g, c));
        }
        self.maze = out;
    }

    /// Add a row of cells `c` at the bottom.
    pub fn add_row(&mut self, c: Cell)
        requires
            old(self).wf(),
        ensures
            final(self).wf(),
            final(self).view_undo() == undo::push_spec(old(self).view_undo(), old(self).view_maze()),
            final(self).view_maze() == old(self).view_maze().push(row_of(old(self).view_cols() as nat, c)),
            final(self).view_rows() == old(self).view_rows() + 1,
            final(self).view_cols() == old(self).view_cols(),
            final(self).view_start() == old(self).view_start(),
            final(self).view_end() == old(self).view_end(),
            settings_same(*old(self), *final(self)),
            run_same(*old(self), *final(self)),
            files_same(*old(self), *final(self)),
    {
        self.snapshot_for_undo();
        let row = make_row(self.cols, c);
        let ghost g = cell::grid_view(&self.maze);
        self.maze.push(row);
        self.rows = self.maze.len();
        proof {
            assert(cell::grid_view(&self.maze) =~= g.push(row_of(self.cols as nat, c)));
        }
    }

    /// Add a column of cells `c` on the right.
    pub fn add_col(&mut self, c: Cell)
        requires
            old(self).wf(),
            old(self).view_cols() < usize::MAX,
        ensures
            final(self).wf(),
            final(self).view_undo() == undo::push_spec(old(self).view_undo(), old(self).view_maze()),
            final(self).view_maze() == with_column(old(self).view_maze(), c),
            final(self).view_rows() == old(self).view_rows(),
            final(self).view_cols() == old(self).view_cols() + 1,
            final(self).view_start() == old(self).view_start(),
            final(self).view_end() == old(self).view_end(),
            settings_same(*old(self), *final(self)),
            run_same(*old(self), *final(self)),
            files_same(*old(self), *final(self)),
    {
        self.snapshot_for_undo();
        let ghost g = cell::grid_view(&self.maze);
        let mut out: MazeGrid = Vec::new();
        let mut y: usize = 0;
        while y < self.maze.len()
            invariant
                g == cell::grid_view(&self.maze),
                y <= self.maze@.len(),
                self.cols < usize::MAX,
                out@.len() == y,
                forall|j: int| 0 <= j < y ==> #[trigger] out@[j]@ == with_column(g, c)[j],
                forall|j: int| 0 <= j < y ==> out@[j]@.len() == self.cols + 1,
                forall|j: int| 0 <= j < self.maze@.len() ==> #[trigger] self.maze@[j]@.len() == self.cols,
            decreases self.maze@.len() - y,
        {
            let row = &self.maze[y];
            let mut new_row: Vec<Cell> = Vec::new();
            let mut x: usize = 0;
            while x < row.len()
                invariant
                    row@ == g[y as int],
                    x <= row@.len(),
                    new_row@ == row@.take(x as int),
                decreases row@.len() - x,
            {
                new_row.push(row[x]);
                x = x + 1;
                assert(new_row@ =~= row@.take(x as int));
            }
            new_row.push(c);
            assert(new_row@ =~= with_column(g, c)[y as int]);
            out.push(new_row);
            y = y + 1;
        }
        proof {
            assert(cell::grid_view(&out) =~= with_column(g, c));
        }
        self.maze = out;
        self.cols = self.cols + 1;
    }

    /// Remove the bottom row, unless only one is left.
    pub fn remove_row(&mut self)
        requires
            old(self).wf(),
        ensures
            final(self).wf(),
            old(self).view_rows() > 1 ==> {
                let rows = (old(self).view_rows() - 1) as usize;
                let cols = old(self).view_cols();
                &&& final(self).view_undo() == undo::push_spec(old(self).view_undo(), old(self).view_maze())
                &&& final(self).view_maze() == old(self).view_maze().drop_last()
                &&& final(self).view_rows() == rows
                &&& final(self).view_cols() == cols
                &&& final(self).view_start() == clamp_point(old(self).view_start(), cols, rows)
                &&& final(self).view_end() == clamp_point(old(self).view_end(), cols, rows)
            },
            old(self).view_rows() <= 1 ==> grid_same(*old(self), *final(self)),
            settings_same(*old(self), *final(self)),
            run_same(*old(self), *final(self)),
            files_same(*old(self), *final(self)),
    {
        if self.rows > 1 {
            self.snapshot_for_undo();
            let ghost g = cell::grid_view(&self.maze);
            self.maze.pop();
            self.rows = self.rows - 1;
            assert(cell::grid_view(&self.maze) =~= g.drop_last());
            self.clamp_endpoints();
        }
    }

    /// Remove the rightmost column, unless only one is left.
    pub fn remove_col(&mut self)
        requires
            old(self).wf(),
        ensures
            final(self).wf(),
            old(self).view_cols() > 1 ==> {
                let rows = old(self).view_rows();
                let cols = (old(self).view_cols() - 1) as usize;
                &&& final(self).view_undo() == undo::push_spec(old(self).view_undo(), old(self).view_maze())
                &&& final(self).view_maze() == without_column(old(self).view_maze())
                &&& final(self).view_rows() == rows
                &&& final(self).view_cols() == cols
                &&& final(self).view_start() == clamp_point(old(self).view_start(), cols, rows)
                &&& final(self).view_end() == clamp_point(old(self).view_end(), cols, rows)
            },
            old(self).view_cols() <= 1 ==> grid_same(*old(self), *final(self)),
            settings_same(*old(self), *final(self)),
            run_same(*old(self), *final(self)),
            files_same(*old(self), *final(self)),
    {
        if self.cols > 1 {
            self.snapshot_for_undo();
            let ghost g = cell::grid_view(&self.maze);
            let mut out: MazeGrid = Vec::new();
            let mut y: usize = 0;
            while y < self.maze.len()
                invariant
                    g == cell::grid_view(&self.maze),
                    y <= self.maze@.len(),
                    self.cols > 1,
                    out@.len() == y,
                    forall|j: int| 0 <= j < y ==> #[trigger] out@[j]@ == without_column(g)[j],
                    forall|j: int| 0 <= j < y ==> out@[j]@.len() == self.cols - 1,
                    forall|j: int| 0 <= j < self.maze@.len() ==> #[trigger] self.maze@[j]@.len() == self.cols,
                decreases self.maze@.len() - y,
            {
                let row = &self.maze[y];
                let n = row.len() - 1;
                let mut new_row: Vec<Cell> = Vec::new();
                let mut x: usize = 0;
                while x < n
                    invariant
                        row@ == g[y as int],
                        n == row@.len() - 1,
                        x <= n,
                        new_row@ == row@.take(x as int),
                    decreases n - x,
                {
                    new_row.push(row[x]);
                    x = x + 1;
                    assert(new_row@ =~= row@.take(x as int));
                }
                assert(new_row@ =~= without_column(g)[y as int]);
                out.push(new_row);
                y = y + 1;
            }
            proof {
                assert(cell::grid_view(&out) =~= without_column(g));
            }
            self.maze = out;
            self.cols = self.cols - 1;
            self.clamp_endpoints();
        }
    }
}

/// The solver settings the user edits in the side panel.
#[derive(Clone, Copy, PartialEq, Eq, Debug, Structural)]
pub struct Settings {
    pub start: Point,
    pub end: Point,
    pub algorithm: Algorithm,
    pub heuristic: Heuristic,
    pub speed_ms: u32,
    pub loop_dwell_ms: u32,
    pub k_paths: usize,
    pub loop_mode: bool,
}

/// `k` raised to at least one.
pub open spec fn at_least_one(k: usize) -> nat {
    if k >= 1 {
        k as nat
    } else {
        1
    }
}

/// `s` is a solver just built from the settings of `a`.
pub open spec fn fresh_for(s: Solver, a: MazeApp) -> bool {
    search::is_fresh(
        s,
        a.view_algorithm(),
        a.view_heuristic(),
        (a.view_start().x, a.view_start().y),
        (a.view_end().x, a.view_end().y),
        at_least_one(a.view_k_paths()),
    )
}

/// The label shown for the state of the active solver.
pub open spec fn status_label(s: Option<Solver>) -> Seq<char> {
    match s {
        None => "idle"@,
        Some(t) => match t.view_status() {
            SolverStatus::Running => "running"@,
            SolverStatus::Found => "path found"@,
            SolverStatus::NoPath => "no path"@,
        },
    }
}

/// Phase one of a frame: a pending file pick is applied. A grid replaces
/// the maze and clears the file error; an error is recorded.
pub open spec fn took_file(a: MazeApp, b: MazeApp) -> bool {
    &&& b.view_inbox() is None
    &&& settings_same(a, b)
    &&& match a.view_inbox() {
        None => grid_same(a, b) && run_same(a, b) && b.view_file_error() == a.view_file_error(),
        Some(Err(e)) => grid_same(a, b) && run_same(a, b) && b.view_file_error() == Some(e),
        Some(Ok(m)) => {
            &&& replaced_maze(a, b, m)
            &&& b.view_file_error() is None
            &&& b.view_last_step() == a.view_last_step()
            &&& b.view_last_finish() == a.view_last_finish()
            &&& b.view_auto_run() == a.view_auto_run()
            &&& b.view_step_pending() == a.view_step_pending()
        },
    }
}

/// Phase two of a frame at clock reading `now`: a running solver takes one
/// step if one was requested, or if auto-run is on and the step interval has
/// passed; a solver that has just finished stamps the finish time and stops
/// auto-run. `r` says whether another frame should be drawn.
pub open spec fn advanced(a: MazeApp, b: MazeApp, now: u64, r: bool) -> bool {
    &&& grid_same(a, b)
    &&& settings_same(a, b)
    &&& files_same(a, b)
    &&& match a.view_solver() {
        None => run_same(a, b) && !r,
        Some(s) => if s.is_finished() {
            run_same(a, b) && r == a.view_loop_mode()
        } else {
            let by_request = a.view_step_pending();
            let by_clock = !by_request && a.view_auto_run() && elapsed(now, a.view_last_step()) >= a.view_speed();
            &&& b.view_solver() matches Some(t) && {
                let done = t.is_finished() && a.view_last_finish() is None;
                &&& if by_request || by_clock {
                    search::stepped(s, t, a.view_maze())
                } else {
                    t == s
                }
                &&& b.view_last_finish() == (if done {
                    Some(now)
                } else {
                    a.view_last_finish()
                })
                &&& b.view_auto_run() == (a.view_auto_run() && !done)
            }
            &&& !b.view_step_pending()
            &&& b.view_last_step() == (if by_clock {
                now
            } else {
                a.view_last_step()
            })
            &&& r == (by_request || a.view_auto_run())
        },
    }
}

/// Phase three of a frame at clock reading `now`: in loop mode, once there
/// is no solver or it has finished, a fresh solve starts: at once if there
/// never was a solver, else after the dwell time has passed since the finish.
/// `r0` is phase two's repaint wish and `r` the frame's.
pub open spec fn restarted(a: MazeApp, b: MazeApp, now: u64, r0: bool, r: bool) -> bool {
    &&& grid_same(a, b)
    &&& settings_same(a, b)
    &&& files_same(a, b)
    &&& b.view_step_pending() == a.view_step_pending()
    &&& if a.view_loop_mode() && match a.view_solver() {
        None => true,
        Some(s) => s.is_finished(),
    } {
        let ready = match a.view_last_finish() {
            None => a.view_solver() is None,
            Some(t) => elapsed(now, t) >= a.view_dwell(),
        };
        &&& r
        &&& if ready {
            &&& b.view_solver() matches Some(t) && fresh_for(t, a)
            &&& b.view_last_finish() is None
            &&& b.view_auto_run()
            &&& b.view_last_step() == now
        } else {
            run_same(a, b)
        }
    } else {
        run_same(a, b) && r == r0
    }
}

/// Whether at least `ms` milliseconds lie between `then` and `now`.
fn elapsed_at_least(now: u64, then: u64, ms: u32) -> (r: bool)
    ensures
        r == (elapsed(now, then) >= ms),
{
    if now >= then {
        now - then >= ms as u64
    } else {
        ms == 0
    }
}

impl MazeApp {
    /// A solver for the current settings, at least one path for K-Shortest.
    pub fn new_solver(&self) -> (r: Solver)
        ensures
            fresh_for(r, *self),
    {
        let s = Solver::new(self.algorithm, self.heuristic, (self.start.x, self.start.y), (self.end.x, self.end.y));
        s.with_k(self.k_paths)
    }

    /// Start a solve that steps on its own at the chosen speed.
    pub fn start_solve(&mut self, now_ms: u64)
        requires
            old(self).wf(),
        ensures
            final(self).wf(),
            final(self).view_solver() matches Some(t) && fresh_for(t, *old(self)),
            final(self).view_auto_run(),
            !final(self).view_step_pending(),
            final(self).view_last_step() == now_ms,
            final(self).view_last_finish() is None,
            grid_same(*old(self), *final(self)),
            settings_same(*old(self), *final(self)),
            files_same(*old(self), *final(self)),
    {
        self.solver = Some(self.new_solver());
        self.auto_run = true;
        self.step_pending = false;
        self.last_step_ms = now_ms;
        self.last_finish_ms = None;
    }

    /// Ask for one step, creating a solver first if there is none.
    pub fn request_step(&mut self)
        requires
            old(self).wf(),
        ensures
            final(self).wf(),
            final(self).view_step_pending(),
            old(self).view_solver() is None ==> (final(self).view_solver() matches Some(t) && fresh_for(t, *old(self)))
                && final(self).view_last_finish() is None,
            old(self).view_solver() is Some ==> final(self).view_solver() == old(self).view_solver()
                && final(self).view_last_finish() == old(self).view_last_finish(),
            final(self).view_auto_run() == old(self).view_auto_run(),
            final(self).view_last_step() == old(self).view_last_step(),
            grid_same(*old(self), *final(self)),
            settings_same(*old(self), *final(self)),
            files_same(*old(self), *final(self)),
    {
        if self.solver.is_none() {
            self.solver = Some(self.new_solver());
            self.last_finish_ms = None;
        }
        self.step_pending = true;
    }

    /// Drop the solver and stop running.
    pub fn clear_solver(&mut self)
        requires
            old(self).wf(),
        ensures
            final(self).wf(),
            final(self).view_solver() is None,
            !final(self).view_auto_run(),
            !final(self).view_step_pending(),
            final(self).view_last_finish() is None,
            final(self).view_last_step() == old(self).view_last_step(),
            grid_same(*old(self), *final(self)),
            settings_same(*old(self), *final(self)),
            files_same(*old(self), *final(self)),
    {
        self.solver = None;
        self.auto_run = false;
        self.step_pending = false;
        self.last_finish_ms = None;
    }

    /// Apply a pending file pick, if any.
    pub fn take_file(&mut self)
        requires
            old(self).wf(),
        ensures
            final(self).wf(),
            took_file(*old(self), *final(self)),
    {
        match self.file_inbox.take() {
            None => {},
            Some(Ok(maze)) => {
                self.set_maze(maze);
                self.last_file_error = None;
            },
            Some(Err(e)) => {
                self.last_file_error = Some(e);
            },
        }
    }

    /// Step or finalise the solver for the frame at clock reading `now_ms`.
    /// Returns whether another frame should be drawn.
    pub fn advance_solver(&mut self, now_ms: u64) -> (r: bool)
        requires
            old(self).wf(),
        ensures
            final(self).wf(),
            advanced(*old(self), *final(self), now_ms, r),
    {
        proof {
            self.lemma_maze_rectangular();
        }
        let mut slot: Option<Solver> = None;
        std::mem::swap(&mut slot, &mut self.solver);
        let mut want = false;
        match slot {
            None => {},
            Some(mut s) => {
                if !s.finished() {
                    if self.step_pending {
                        s.step(&self.maze);
                        self.step_pending = false;
                        want = true;
                    } else if self.auto_run && elapsed_at_least(now_ms, self.last_step_ms, self.speed_ms) {
                        s.step(&self.maze);
                        self.last_step_ms = now_ms;
                        want = true;
                    } else if self.auto_run {
                        want = true;
                    }
                    if s.finished() && self.last_finish_ms.is_none() {
                        self.last_finish_ms = Some(now_ms);
                        self.auto_run = false;
                    }
                } else if self.loop_mode {
                    want = true;
                }
                self.solver = Some(s);
            },
        }
        want
    }

    /// In loop mode, restart the solve once the last one has finished and the
    /// dwell time has passed. `want` is the repaint wish so far; returns the
    /// frame's.
    pub fn loop_restart(&mut self, now_ms: u64, want: bool) -> (r: bool)
        requires
            old(self).wf(),
        ensures
            final(self).wf(),
            restarted(*old(self), *final(self), now_ms, want, r),
    {
        let mut want = want;
        if self.loop_mode {
            let should_restart = match &self.solver {
                None => true,
                Some(s) => s.finished(),
            };
            if should_restart {
                let ready = match self.last_finish_ms {
                    None => self.solver.is_none(),
                    Some(t) => elapsed_at_least(now_ms, t, self.loop_dwell_ms),
                };
                if ready {
                    self.solver = Some(self.new_solver());
                    self.last_finish_ms = None;
                    self.auto_run = true;
                    self.last_step_ms = now_ms;
                }
                want = true;
            }
        }
        want
    }

    /// Drive the solver once per frame, at clock reading `now_ms`: apply a
    /// picked file, step or finalise the solver, restart in loop mode.
    /// Returns whether another frame should be drawn.
    pub fn tick_solver(&mut self, now_ms: u64) -> (r: bool)
        requires
            old(self).wf(),
        ensures
            final(self).wf(),
            exists|x: MazeApp, y: MazeApp, r1: bool|
                #![trigger took_file(*old(self), x), advanced(x, y, now_ms, r1)]
                took_file(*old(self), x) && advanced(x, y, now_ms, r1) && restarted(y, *final(self), now_ms, r1, r),
    {
        self.take_file();
        let ghost x = *self;
        let r1 = self.advance_solver(now_ms);
        let ghost y = *self;
        let r = self.loop_restart(now_ms, r1);
        assert(took_file(*old(self), x) && advanced(x, y, now_ms, r1) && restarted(y, *self, now_ms, r1, r));
        r
    }

    /// The state of the active solver, for the status line.
    pub fn solver_status_label(&self) -> (r: &'static str)
        ensures
            r@ == status_label(self.view_solver()),
    {
        match &self.solver {
            None => "idle",
            Some(s) => match s.status() {
                SolverStatus::Running => "running",
                SolverStatus::Found => "path found",
                SolverStatus::NoPath => "no path",
            },
        }
    }
}

/// `g` with the cell at column `x`, row `y` set to `c`.
pub open spec fn set_cell(g: Seq<Seq<Cell>>, x: int, y: int, c: Cell) -> Seq<Seq<Cell>> {
    g.update(y, g[y].update(x, c))
}

/// The pointer is over a cell of the maze of `a`.
pub open spec fn over_cell(a: MazeApp, at: Option<(usize, usize)>) -> bool {
    at matches Some(p) && p.1 < a.view_rows() && p.0 < a.view_cols()
}

/// The column under the pointer.
pub open spec fn pointer_col(at: Option<(usize, usize)>) -> usize {
    match at {
        Some(p) => p.0,
        None => 0,
    }
}

/// The row under the pointer.
pub open spec fn pointer_row(at: Option<(usize, usize)>) -> usize {
    match at {
        Some(p) => p.1,
        None => 0,
    }
}

/// Whether `m` edits walls.
pub open spec fn is_editing(m: InteractionMode) -> bool {
    m == InteractionMode::DrawWall || m == InteractionMode::EraseWall
}

/// The settings of `b` other than the interaction mode are those of `a`.
pub open spec fn choices_same(a: MazeApp, b: MazeApp) -> bool {
    &&& a.view_selected() == b.view_selected()
    &&& a.view_algorithm() == b.view_algorithm()
    &&& a.view_heuristic() == b.view_heuristic()
    &&& a.view_speed() == b.view_speed()
    &&& a.view_dwell() == b.view_dwell()
    &&& a.view_k_paths() == b.view_k_paths()
    &&& a.view_loop_mode() == b.view_loop_mode()
}

impl MazeApp {
    /// Switch to interaction mode `m`, or back to idle if it is the current one.
    pub fn toggle_interaction(&mut self, m: InteractionMode)
        requires
            old(self).wf(),
        ensures
            final(self).wf(),
            final(self).view_interaction() == (if old(self).view_interaction() == m {
                InteractionMode::Idle
            } else {
                m
            }),
            grid_same(*old(self), *final(self)),
            choices_same(*old(self), *final(self)),
            run_same(*old(self), *final(self)),
            files_same(*old(self), *final(self)),
    {
        self.interaction = if self.interaction == m {
            InteractionMode::Idle
        } else {
            m
        };
    }

    /// A pointer on the canvas: `at` is the cell under it (column, row) if
    /// it is over the canvas, `started` whether a drag began this frame and
    /// `clicked` whether it was a click. A wall stroke takes one undo
    /// snapshot, when it starts; picking an endpoint takes a click and ends
    /// the pick mode.
    pub fn handle_pointer(&mut self, at: Option<(usize, usize)>, started: bool, clicked: bool)
        requires
            old(self).wf(),
        ensures
            final(self).wf(),
            final(self).view_undo() == (if is_editing(old(self).view_interaction()) && (started || clicked) {
                undo::push_spec(old(self).view_undo(), old(self).view_maze())
            } else {
                old(self).view_undo()
            }),
            final(self).view_maze() == (if over_cell(*old(self), at) && is_editing(old(self).view_interaction()) {
                set_cell(
                    old(self).view_maze(),
                    pointer_col(at) as int,
                    pointer_row(at) as int,
                    if old(self).view_interaction() == InteractionMode::DrawWall {
                        Cell::Wall
                    } else {
                        Cell::Empty
                    },
                )
            } else {
                old(self).view_maze()
            }),
            final(self).view_start() == (if over_cell(*old(self), at) && clicked && old(self).view_interaction()
                == InteractionMode::PickStart {
                Point { x: pointer_col(at), y: pointer_row(at) }
            } else {
                old(self).view_start()
            }),
            final(self).view_end() == (if over_cell(*old(self), at) && clicked && old(self).view_interaction()
                == InteractionMode::PickEnd {
                Point { x: pointer_col(at), y: pointer_row(at) }
            } else {
                old(self).view_end()
            }),
            final(self).view_interaction() == (if over_cell(*old(self), at) && clicked && (old(self).view_interaction()
                == InteractionMode::PickStart || old(self).view_interaction() == InteractionMode::PickEnd) {
                InteractionMode::Idle
            } else {
                old(self).view_interaction()
            }),
            final(self).view_rows() == old(self).view_rows(),
            final(self).view_cols() == old(self).view_cols(),
            choices_same(*old(self), *final(self)),
            run_same(*old(self), *final(self)),
            files_same(*old(self), *final(self)),
    {
        let editing = match self.interaction {
            InteractionMode::DrawWall => true,
            InteractionMode::EraseWall => true,
            _ => false,
        };
        if editing && (started || clicked) {
            self.snapshot_for_undo();
        }
        let (col, row) = match at {
            None => {
                return;
            },
            Some(p) => p,
        };
        if row >= self.rows || col >= self.cols {
            return;
        }
        let ghost g = cell::grid_view(&self.maze);
        proof {
            self.lemma_maze_rectangular();
        }
        match self.interaction {
            InteractionMode::DrawWall => {
                self.maze[row][col] = Cell::Wall;
                assert(cell::grid_view(&self.maze) =~= set_cell(g, col as int, row as int, Cell::Wall));
            },
            InteractionMode::EraseWall => {
                self.maze[row][col] = Cell::Empty;
                assert(cell::grid_view(&self.maze) =~= set_cell(g, col as int, row as int, Cell::Empty));
            },
            InteractionMode::PickStart => {
                if clicked {
                    self.start = Point { x: col, y: row };
                    self.interaction = InteractionMode::Idle;
                }
            },
            InteractionMode::PickEnd => {
                if clicked {
                    self.end = Point { x: col, y: row };
                    self.interaction = InteractionMode::Idle;
                }
            },
            InteractionMode::Idle => {},
        }
    }

    /// Switch to the built-in preset `m`, generated at the current size, if
    /// it is not the selected one.
    pub fn select_maze(&mut self, m: BuiltinMaze)
        requires
            old(self).wf(),
        ensures
            final(self).wf(),
            final(self).view_selected() == m,
            m != old(self).view_selected() ==> replaced_maze(
                *old(self),
                *final(self),
                generators::spec_generate(m, old(self).view_rows() as nat, old(self).view_cols() as nat),
            ),
            m == old(self).view_selected() ==> grid_same(*old(self), *final(self)) && run_same(*old(self), *final(self)),
            m != old(self).view_selected() ==> final(self).view_last_step() == old(self).view_last_step()
                && final(self).view_last_finish() == old(self).view_last_finish() && final(self).view_auto_run()
                == old(self).view_auto_run() && final(self).view_step_pending() == old(self).view_step_pending(),
            final(self).view_algorithm() == old(self).view_algorithm(),
            final(self).view_heuristic() == old(self).view_heuristic(),
            final(self).view_speed() == old(self).view_speed(),
            final(self).view_dwell() == old(self).view_dwell(),
            final(self).view_k_paths() == old(self).view_k_paths(),
            final(self).view_loop_mode() == old(self).view_loop_mode(),
            final(self).view_interaction() == old(self).view_interaction(),
            files_same(*old(self), *final(self)),
    {
        if m != self.selected_maze {
            self.selected_maze = m;
            let maze = m.generate(self.rows, self.cols);
            proof {
                generators::lemma_generate_rectangular(m, self.rows as nat, self.cols as nat);
            }
            self.set_maze(maze);
        }
    }

    /// Hand over the result of a file pick; the next frame applies it.
    pub fn deliver_file(&mut self, result: Result<MazeGrid, String>)
        requires
            old(self).wf(),
            fileio::pick_ok(result),
        ensures
            final(self).wf(),
            final(self).view_inbox() == Some(fileio::pick_view(result)),
            final(self).view_file_error() == old(self).view_file_error(),
            grid_same(*old(self), *final(self)),
            settings_same(*old(self), *final(self)),
            run_same(*old(self), *final(self)),
    {
        self.file_inbox.put(result);
    }

    /// The settings of the side panel.
    pub fn settings(&self) -> (r: Settings)
        ensures
            r.start == self.view_start(),
            r.end == self.view_end(),
            r.algorithm == self.view_algorithm(),
            r.heuristic == self.view_heuristic(),
            r.speed_ms == self.view_speed(),
            r.loop_dwell_ms == self.view_dwell(),
            r.k_paths == self.view_k_paths(),
            r.loop_mode == self.view_loop_mode(),
    {
        Settings {
            start: self.start,
            end: self.end,
            algorithm: self.algorithm,
            heuristic: self.heuristic,
            speed_ms: self.speed_ms,
            loop_dwell_ms: self.loop_dwell_ms,
            k_paths: self.k_paths,
            loop_mode: self.loop_mode,
        }
    }

    /// Replace the settings of the side panel.
    pub fn set_settings(&mut self, s: Settings)
        requires
            old(self).wf(),
        ensures
            final(self).wf(),
            final(self).view_start() == s.start,
            final(self).view_end() == s.end,
            final(self).view_algorithm() == s.algorithm,
            final(self).view_heuristic() == s.heuristic,
            final(self).view_speed() == s.speed_ms,
            final(self).view_dwell() == s.loop_dwell_ms,
            final(self).view_k_paths() == s.k_paths,
            final(self).view_loop_mode() == s.loop_mode,
            final(self).view_selected() == old(self).view_selected(),
            final(self).view_interaction() == old(self).view_interaction(),
            final(self).view_maze() == old(self).view_maze(),
            final(self).view_rows() == old(self).view_rows(),
            final(self).view_cols() == old(self).view_cols(),
            final(self).view_undo() == old(self).view_undo(),
            run_same(*old(self), *final(self)),
            files_same(*old(self), *final(self)),
    {
        self.start = s.start;
        self.end = s.end;
        self.algorithm = s.algorithm;
        self.heuristic = s.heuristic;
        self.speed_ms = s.speed_ms;
        self.loop_dwell_ms = s.loop_dwell_ms;
        self.k_paths = s.k_paths;
        self.loop_mode = s.loop_mode;
    }

    pub fn maze(&self) -> (r: &MazeGrid)
        ensures
            cell::grid_view(r) == self.view_maze(),
    {
        &self.maze
    }

    pub fn rows(&self) -> (r: usize)
        ensures
            r == self.view_rows(),
    {
        self.rows
    }

    pub fn cols(&self) -> (r: usize)
        ensures
            r == self.view_cols(),
    {
        self.cols
    }

    pub fn selected_maze(&self) -> (r: BuiltinMaze)
        ensures
            r == self.view_selected(),
    {
        self.selected_maze
    }

    pub fn interaction(&self) -> (r: InteractionMode)
        ensures
            r == self.view_interaction(),
    {
        self.interaction
    }

    /// The active solver, if any.
    pub fn solver(&self) -> (r: &Option<Solver>)
        ensures
            *r == self.view_solver(),
    {
        &self.solver
    }

    pub fn undo(&self) -> (r: &UndoStack)
        ensures
            r@ == self.view_undo(),
    {
        &self.undo
    }

    /// The error of the last file pick, if it failed.
    pub fn last_file_error(&self) -> (r: &Option<String>)
        ensures
            match r {
                Some(e) => self.view_file_error() == Some(e@),
                None => self.view_file_error() is None,
            },
    {
        &self.last_file_error
    }
}

impl Default for MazeApp {
    /// The demo maze, with start and end in its corridor so it solves on
    /// first launch; A* with Manhattan, 100 ms per step, 1 s dwell, five
    /// paths for K-Shortest; clock at 0.
    fn default() -> (r: Self)
        ensures
            r.wf(),
            r.view_maze() == generators::spec_starting(),
            r.view_selected() == BuiltinMaze::Starting,
            r.view_rows() == 10,
            r.view_cols() == 10,
            r.view_start() == (Point { x: 1, y: 1 }),
            r.view_end() == (Point { x: 8, y: 7 }),
            r.view_algorithm() == Algorithm::AStar,
            r.view_heuristic() == Heuristic::Manhattan,
            r.view_speed() == 100,
            r.view_dwell() == 1000,
            r.view_k_paths() == 5,
            r.view_solver() is None,
            r.view_last_step() == 0,
            r.view_last_finish() is None,
            !r.view_auto_run(),
            !r.view_loop_mode(),
            !r.view_step_pending(),
            r.view_interaction() == InteractionMode::Idle,
            r.view_inbox() is None,
            r.view_file_error() is None,
            r.view_undo().len() == 0,
    {
        let maze = generators::maze_starting();
        let rows = maze.len();
        let cols = if rows > 0 { maze[0].len() } else { 0 };
        proof {
            let g = cell::grid_view(&maze);
            generators::lemma_generate_rectangular(BuiltinMaze::Starting, 0, 0);
            assert(g.len() == 10);
            assert(g[0].len() == 10);
            assert(maze@[0]@ == g[0]);
            assert forall|y: int| 0 <= y < maze@.len() implies #[trigger] maze@[y]@.len() == cols by {
                assert(maze@[y]@ == g[y]);
            }
        }
        let r = MazeApp {
            maze,
            selected_maze: BuiltinMaze::Starting,
            rows,
            cols,
            start: Point { x: 1, y: 1 },
            end: Point { x: 8, y: 7 },
            algorithm: Algorithm::AStar,
            heuristic: Heuristic::Manhattan,
            speed_ms: 100,
            loop_dwell_ms: 1000,
            k_paths: 5,
            solver: None,
            last_step_ms: 0,
            last_finish_ms: None,
            auto_run: false,
            loop_mode: false,
            step_pending: false,
            interaction: InteractionMode::Idle,
            file_inbox: FileInbox::new(),
            last_file_error: None,
            undo: UndoStack::new(),
        };
        r
    }
}

} // verus!
