//! Step-by-step pathfinder driving A*, BFS, and DFS over a maze, with
//! K-Shortest run in one shot.
//!
//! Each algorithm keeps its own frontier: a stack for DFS, a queue for BFS
//! and a priority list for A* (smallest `f = g + h` first). Expanded cells
//! are "closed"; every discovered cell other than the start records the
//! cell it was reached from, and the path is read back along those links.

use vstd::prelude::*;

use crate::mazes::cell::{self, Cell, MazeGrid};

use super::algorithm::Algorithm;
use super::coord_map::CoordMap;
use super::heuristic::{spec_estimate, Heuristic, COST_SCALE};
use super::k_paths::{self, contains_coord};
use super::walks::{self, Coord};

verus! {

/// What the [`Solver`] is currently doing.
#[derive(Clone, Copy, PartialEq, Eq, Debug, Structural)]
pub enum SolverStatus {
    Running,
    Found,
    NoPath,
}

/// Entry of the A* frontier: a cell and its priority `f = g + h`.
#[derive(Clone, Copy)]
struct OpenNode {
    f: u128,
    coord: Coord,
}

/// Drives one pathfinding run.
///
/// Construct with [`Solver::new`] and call [`Solver::step`] repeatedly;
/// inspect [`Solver::open_cells`], [`Solver::closed_cells`] and
/// [`Solver::path`] to render the current state.
pub struct Solver {
    algorithm: Algorithm,
    heuristic: Heuristic,
    start: Coord,
    goal: Coord,
    status: SolverStatus,
    /// The frontier, without repeats. DFS uses it as a stack (the last cell
    /// is expanded next), BFS as a queue (the first cell is expanded next).
    open_set: Vec<Coord>,
    /// A* priorities. A cell may appear several times; only entries whose
    /// cell is still on the frontier count, and the smallest `f` wins.
    open_heap: Vec<OpenNode>,
    /// Expanded cells, in the order they were expanded.
    closed: Vec<Coord>,
    came_from: CoordMap<Coord>,
    g_score: CoordMap<u64>,
    path: Vec<Coord>,
    paths: Vec<Vec<Coord>>,
    k: usize,
    /// The maze of the first step, if any.
    seen: Ghost<Option<Seq<Seq<Cell>>>>,
    /// Every step so far was given that same maze.
    uniform: Ghost<bool>,
    /// BFS: how many moves each discovered cell lies from the start, along
    /// the links.
    depth: Ghost<Map<Coord, int>>,
}

/// The cells inside grid `g` next to `c`, in the order right, left, down, up.
pub open spec fn nbrs(g: Seq<Seq<Cell>>, c: Coord) -> Seq<Coord> {
    let w = cell::grid_width(g) as int;
    let h = g.len() as int;
    let x = c.0 as int;
    let y = c.1 as int;
    one_if(x < usize::MAX && x + 1 < w && y < h, ((x + 1) as usize, c.1)) + one_if(
        1 <= x && x - 1 < w && y < h,
        ((x - 1) as usize, c.1),
    ) + one_if(x < w && y < usize::MAX && y + 1 < h, (c.0, (y + 1) as usize)) + one_if(
        x < w && 1 <= y && y - 1 < h,
        (c.0, (y - 1) as usize),
    )
}

/// `c` alone if `b` holds, else nothing.
pub open spec fn one_if(b: bool, c: Coord) -> Seq<Coord> {
    if b {
        seq![c]
    } else {
        Seq::empty()
    }
}

/// The entries of `s` that satisfy `keep`, in order.
pub open spec fn select(s: Seq<Coord>, keep: spec_fn(Coord) -> bool) -> Seq<Coord>
    decreases s.len(),
{
    if s.len() == 0 {
        Seq::empty()
    } else if keep(s.last()) {
        select(s.drop_last(), keep).push(s.last())
    } else {
        select(s.drop_last(), keep)
    }
}

/// One more, unless already at the largest `u64`.
pub open spec fn sat_inc(x: u64) -> u64 {
    if x < u64::MAX {
        (x + 1) as u64
    } else {
        x
    }
}

/// `p` is a walk from `start` in `g` that ends at `goal`, and no such walk
/// is shorter.
pub open spec fn shortest_route(g: Seq<Seq<Cell>>, p: Seq<Coord>, start: Coord, goal: Coord) -> bool {
    &&& walks::walk_from(g, p, start)
    &&& p.last() == goal
    &&& forall|w: Seq<Coord>| #[trigger] walks::walk_from(g, w, start) && w.last() == goal ==> p.len() <= w.len()
}

/// The A* priority of `c`: cost so far plus the estimate to the goal.
pub open spec fn priority(h: Heuristic, goal: Coord, costs: Map<Coord, u64>, c: Coord) -> int {
    costs[c] * COST_SCALE + spec_estimate(h, c, goal)
}

/// `c` is the frontier cell that algorithm `alg` expands next: the top of
/// the stack, the head of the queue, or a cell of least priority.
pub open spec fn picks(
    alg: Algorithm,
    h: Heuristic,
    goal: Coord,
    open: Seq<Coord>,
    costs: Map<Coord, u64>,
    c: Coord,
) -> bool {
    &&& open.len() > 0
    &&& match alg {
        Algorithm::DFS => c == open.last(),
        Algorithm::BFS => c == open[0],
        Algorithm::AStar => open.contains(c) && forall|d: Coord|
            #[trigger] open.contains(d) ==> priority(h, goal, costs, c) <= priority(h, goal, costs, d),
        Algorithm::KShortest => false,
    }
}

/// Whether a neighbour is newly discovered: an open cell of `g` that is
/// neither expanded (`closed`) nor already on the frontier (`open`).
pub open spec fn fresh_keep(g: Seq<Seq<Cell>>, open: Seq<Coord>, closed: Seq<Coord>) -> spec_fn(Coord) -> bool {
    |n: Coord| walks::is_open(g, n) && !closed.contains(n) && !open.contains(n)
}

/// Neighbours of `c` discovered by expanding it.
pub open spec fn fresh(g: Seq<Seq<Cell>>, c: Coord, open: Seq<Coord>, closed: Seq<Coord>) -> Seq<Coord> {
    select(nbrs(g, c), fresh_keep(g, open, closed))
}

/// Whether A* reaches neighbour `n` of `c` more cheaply through `c`.
pub open spec fn improved_keep(
    g: Seq<Seq<Cell>>,
    c: Coord,
    closed: Seq<Coord>,
    costs: Map<Coord, u64>,
) -> spec_fn(Coord) -> bool {
    |n: Coord|
        walks::is_open(g, n) && !closed.contains(n) && (!costs.contains_key(n) || sat_inc(costs[c]) < costs[n])
}

/// Neighbours of `c` that A* reaches more cheaply through `c`.
pub open spec fn improved(g: Seq<Seq<Cell>>, c: Coord, closed: Seq<Coord>, costs: Map<Coord, u64>) -> Seq<Coord> {
    select(nbrs(g, c), improved_keep(g, c, closed, costs))
}

/// The test "is not `c`".
pub open spec fn other_than(c: Coord) -> spec_fn(Coord) -> bool {
    |n: Coord| n != c
}

/// `s` without the entry `c`.
pub open spec fn without(s: Seq<Coord>, c: Coord) -> Seq<Coord> {
    select(s, other_than(c))
}

/// `m` with every cell of `ns` mapped to `v`.
pub open spec fn assign<V>(m: Map<Coord, V>, ns: Seq<Coord>, v: V) -> Map<Coord, V> {
    m.union_prefer_right(Map::new(|n: Coord| ns.contains(n), |n: Coord| v))
}

/// `p` runs from `start` to `goal` and each cell is linked to the one before it.
pub open spec fn traces(links: Map<Coord, Coord>, p: Seq<Coord>, start: Coord, goal: Coord) -> bool {
    &&& p.len() >= 1
    &&& p[0] == start
    &&& p.last() == goal
    &&& forall|i: int|
        0 <= i < p.len() - 1 ==> links.contains_key(#[trigger] p[i + 1]) && links[p[i + 1]] == p[i]
}

/// Every legal move in `g` out of an expanded cell leads to a cell on the
/// frontier or expanded.
pub open spec fn closed_moves_ok(g: Seq<Seq<Cell>>, open: Seq<Coord>, closed: Seq<Coord>) -> bool {
    forall|i: int, n: Coord|
        0 <= i < closed.len() && #[trigger] walks::step_ok(g, Seq::empty(), Seq::empty(), closed[i], n)
            ==> open.contains(n) || closed.contains(n)
}

/// Each frontier cell has an entry at its current priority, and no entry of
/// a frontier cell is below that priority.
spec fn heap_ok(h: Seq<OpenNode>, open: Seq<Coord>, costs: Map<Coord, u64>, hr: Heuristic, goal: Coord) -> bool {
    &&& forall|c: Coord|
        #[trigger] open.contains(c) ==> exists|i: int|
            0 <= i < h.len() && (#[trigger] h[i]).coord == c && h[i].f == priority(hr, goal, costs, c)
    &&& forall|i: int|
        0 <= i < h.len() && open.contains(#[trigger] h[i].coord) ==> h[i].f >= priority(hr, goal, costs, h[i].coord)
}

/// The neighbours of `c` are exactly the adjacent cells inside the grid,
/// each listed once.
pub proof fn lemma_nbrs(g: Seq<Seq<Cell>>, c: Coord)
    ensures
        nbrs(g, c).no_duplicates(),
        nbrs(g, c).len() <= 4,
        forall|n: Coord| #[trigger] nbrs(g, c).contains(n) <==> walks::adjacent(c, n) && walks::in_bounds(g, n),
{
    let w = cell::grid_width(g) as int;
    let h = g.len() as int;
    let x = c.0 as int;
    let y = c.1 as int;
    let a = one_if(x < usize::MAX && x + 1 < w && y < h, ((x + 1) as usize, c.1));
    let b = one_if(1 <= x && x - 1 < w && y < h, ((x - 1) as usize, c.1));
    let d = one_if(x < w && y < usize::MAX && y + 1 < h, (c.0, (y + 1) as usize));
    let e = one_if(x < w && 1 <= y && y - 1 < h, (c.0, (y - 1) as usize));
    let s = nbrs(g, c);
    assert(s == a + b + d + e);
    assert(forall|n: Coord| a.contains(n) ==> walks::adjacent(c, n) && walks::in_bounds(g, n));
    assert(forall|n: Coord| b.contains(n) ==> walks::adjacent(c, n) && walks::in_bounds(g, n));
    assert(forall|n: Coord| d.contains(n) ==> walks::adjacent(c, n) && walks::in_bounds(g, n));
    assert(forall|n: Coord| e.contains(n) ==> walks::adjacent(c, n) && walks::in_bounds(g, n));
    assert forall|n: Coord| #[trigger] s.contains(n) <==> walks::adjacent(c, n) && walks::in_bounds(g, n) by {
        if s.contains(n) {
            let i = choose|i: int| 0 <= i < s.len() && s[i] == n;
            if i < a.len() {
                assert(n == a[i]);
            } else if i < a.len() + b.len() {
                assert(n == b[i - a.len()]);
            } else if i < a.len() + b.len() + d.len() {
                assert(n == d[i - a.len() - b.len()]);
            } else {
                assert(n == e[i - a.len() - b.len() - d.len()]);
            }
        }
        if walks::adjacent(c, n) && walks::in_bounds(g, n) {
            if n.1 == c.1 && n.0 == c.0 + 1 {
                assert(s[0] == n);
            } else if n.1 == c.1 && c.0 == n.0 + 1 {
                assert(s[a.len() as int] == n);
            } else if n.0 == c.0 && n.1 == c.1 + 1 {
                assert(s[(a.len() + b.len()) as int] == n);
            } else {
                assert(s[(a.len() + b.len() + d.len()) as int] == n);
            }
        }
    }
    assert forall|i: int, j: int| 0 <= i < s.len() && 0 <= j < s.len() && i != j implies s[i] != s[j] by {
        assert(a.len() <= 1 && b.len() <= 1 && d.len() <= 1 && e.len() <= 1);
        let pi = if i < a.len() { 0int } else if i < a.len() + b.len() { 1int } else if i < a.len() + b.len()
            + d.len() { 2int } else { 3int };
        let pj = if j < a.len() { 0int } else if j < a.len() + b.len() { 1int } else if j < a.len() + b.len()
            + d.len() { 2int } else { 3int };
        assert(pi != pj);
    }
}

/// Where `n` lies from `c`: 0 right, 1 left, 2 down, 3 anywhere else.
pub open spec fn direction_rank(c: Coord, n: Coord) -> int {
    if n.1 == c.1 && n.0 == c.0 + 1 {
        0
    } else if n.1 == c.1 && c.0 == n.0 + 1 {
        1
    } else if n.0 == c.0 && n.1 == c.1 + 1 {
        2
    } else {
        3
    }
}

/// The neighbours are listed right, left, down, up: each one lies in a later
/// direction from `c` than the one before it.
pub proof fn lemma_nbrs_order(g: Seq<Seq<Cell>>, c: Coord)
    ensures
        forall|i: int, j: int|
            0 <= i < j < nbrs(g, c).len() ==> direction_rank(c, #[trigger] nbrs(g, c)[i]) < direction_rank(
                c,
                #[trigger] nbrs(g, c)[j],
            ),
{
    let w = cell::grid_width(g) as int;
    let h = g.len() as int;
    let x = c.0 as int;
    let y = c.1 as int;
    let a = one_if(x < usize::MAX && x + 1 < w && y < h, ((x + 1) as usize, c.1));
    let b = one_if(1 <= x && x - 1 < w && y < h, ((x - 1) as usize, c.1));
    let d = one_if(x < w && y < usize::MAX && y + 1 < h, (c.0, (y + 1) as usize));
    let e = one_if(x < w && 1 <= y && y - 1 < h, (c.0, (y - 1) as usize));
    let s = nbrs(g, c);
    assert(s == a + b + d + e);
    assert forall|i: int| 0 <= i < s.len() implies direction_rank(c, #[trigger] s[i]) == (if i < a.len() {
        0int
    } else if i < a.len() + b.len() {
        1int
    } else if i < a.len() + b.len() + d.len() {
        2int
    } else {
        3int
    }) by {
        if i < a.len() {
            assert(s[i] == a[i]);
        } else if i < a.len() + b.len() {
            assert(s[i] == b[i - a.len()]);
        } else if i < a.len() + b.len() + d.len() {
            assert(s[i] == d[i - a.len() - b.len()]);
        } else {
            assert(s[i] == e[i - a.len() - b.len() - d.len()]);
        }
    }
    assert forall|i: int, j: int| 0 <= i < j < s.len() implies direction_rank(c, #[trigger] s[i]) < direction_rank(
        c,
        #[trigger] s[j],
    ) by {
        assert(a.len() <= 1 && b.len() <= 1 && d.len() <= 1 && e.len() <= 1);
    }
}

/// What `select` keeps, and that it keeps distinct entries distinct.
pub proof fn lemma_select(s: Seq<Coord>, keep: spec_fn(Coord) -> bool)
    ensures
        forall|n: Coord| #[trigger] select(s, keep).contains(n) <==> s.contains(n) && keep(n),
        s.no_duplicates() ==> select(s, keep).no_duplicates(),
        select(s, keep).len() <= s.len(),
    decreases s.len(),
{
    if s.len() > 0 {
        let p = s.drop_last();
        lemma_select(p, keep);
        let r = select(p, keep);
        assert forall|n: Coord| #[trigger] select(s, keep).contains(n) <==> s.contains(n) && keep(n) by {
            if s.contains(n) && n != s.last() {
                let i = choose|i: int| 0 <= i < s.len() && s[i] == n;
                assert(p[i] == n);
            }
            if p.contains(n) {
                let i = choose|i: int| 0 <= i < p.len() && p[i] == n;
                assert(s[i] == n);
            }
            if keep(s.last()) {
                assert(r.push(s.last()).last() == s.last());
                if r.push(s.last()).contains(n) && n != s.last() {
                    let i = choose|i: int| 0 <= i < r.len() + 1 && r.push(s.last())[i] == n;
                    assert(r[i] == n);
                }
                if r.contains(n) {
                    let i = choose|i: int| 0 <= i < r.len() && r[i] == n;
                    assert(r.push(s.last())[i] == n);
                }
            }
        }
        if s.no_duplicates() && keep(s.last()) {
            assert(!p.contains(s.last()));
            assert(!r.contains(s.last()));
        }
    }
}

/// Taking one more entry of `s` adds it to the selection if it is kept.
proof fn lemma_select_take(s: Seq<Coord>, keep: spec_fn(Coord) -> bool, i: int)
    requires
        0 <= i < s.len(),
    ensures
        select(s.take(i + 1), keep) == if keep(s[i]) {
            select(s.take(i), keep).push(s[i])
        } else {
            select(s.take(i), keep)
        },
{
    assert(s.take(i + 1).drop_last() =~= s.take(i));
    assert(s.take(i + 1).last() == s[i]);
}

/// 4-connected neighbourhood of `c` inside the maze: right, left, down, up.
pub fn neighbors_4(c: Coord, maze: &MazeGrid) -> (r: Vec<Coord>)
    ensures
        r@ == nbrs(cell::grid_view(maze), c),
{
    let ghost g = cell::grid_view(maze);
    let height = maze.len();
    let width = if height > 0 { maze[0].len() } else { 0 };
    assert(width == cell::grid_width(g));
    let (x, y) = c;
    let mut r: Vec<Coord> = Vec::new();
    if width > 0 && x < width - 1 && y < height {
        r.push((x + 1, y));
    }
    if x >= 1 && x - 1 < width && y < height {
        r.push((x - 1, y));
    }
    if x < width && height > 0 && y < height - 1 {
        r.push((x, y + 1));
    }
    if x < width && y >= 1 && y - 1 < height {
        r.push((x, y - 1));
    }
    assert(r@ =~= nbrs(g, c));
    r
}

/// Whether `c` is an open cell of the maze: inside it and not a wall.
fn cell_is_open(maze: &MazeGrid, c: Coord) -> (r: bool)
    requires
        cell::is_rectangular(cell::grid_view(maze)),
    ensures
        r == walks::is_open(cell::grid_view(maze), c),
{
    let ghost g = cell::grid_view(maze);
    let height = maze.len();
    if c.1 >= height {
        return false;
    }
    let width = maze[0].len();
    assert(width == cell::grid_width(g));
    if c.0 >= width {
        return false;
    }
    assert(g[c.1 as int] == maze@[c.1 as int]@);
    assert(g[c.1 as int].len() == cell::grid_width(g));
    maze[c.1][c.0] != Cell::Wall
}

/// What one step on grid `g` does when the frontier is not empty and `c`
/// is the cell taken from it.
pub open spec fn expands(s: Solver, t: Solver, g: Seq<Seq<Cell>>, c: Coord) -> bool {
    let open = s.view_open();
    let closed = s.view_closed();
    let links = s.view_links();
    let costs = s.view_costs();
    if c == s.view_goal() {
        &&& t.view_status() == SolverStatus::Found
        &&& t.view_open() == without(open, c)
        &&& t.view_closed() == closed
        &&& t.view_links() == links
        &&& t.view_costs() == costs
        &&& traces(links, t.view_path(), s.view_start(), s.view_goal())
        &&& t.view_paths() == seq![t.view_path()]
    } else {
        let closed2 = closed.push(c);
        let found = fresh(g, c, open, closed2);
        &&& t.view_status() == SolverStatus::Running
        &&& t.view_path() == s.view_path()
        &&& t.view_paths() == s.view_paths()
        &&& t.view_closed() == closed2
        &&& t.view_open() == without(open, c) + found
        &&& if s.view_algorithm() == Algorithm::AStar {
            let better = improved(g, c, closed2, costs);
            &&& t.view_links() == assign(links, better, c)
            &&& t.view_costs() == assign(costs, better, sat_inc(costs[c]))
        } else {
            &&& t.view_links() == assign(links, found, c)
            &&& t.view_costs() == costs
        }
    }
}

/// Both endpoints of `s` are open cells of grid `g`.
pub open spec fn endpoints_open(s: Solver, g: Seq<Seq<Cell>>) -> bool {
    walks::is_open(g, s.view_start()) && walks::is_open(g, s.view_goal())
}

/// What one step on grid `g` does to a search that is neither finished nor
/// K-Shortest. An endpoint on a wall (or off the grid) ends the search at
/// once with no path and an empty frontier.
pub open spec fn searched(s: Solver, t: Solver, g: Seq<Seq<Cell>>) -> bool {
    if !endpoints_open(s, g) {
        &&& t.view_status() == SolverStatus::NoPath
        &&& t.view_open() == Seq::<Coord>::empty()
        &&& t.view_closed() == s.view_closed()
        &&& t.view_links() == s.view_links()
        &&& t.view_costs() == s.view_costs()
        &&& t.view_path() == Seq::<Coord>::empty()
        &&& t.view_paths() == Seq::<Seq<Coord>>::empty()
    } else if s.view_open().len() == 0 {
        &&& t.view_status() == SolverStatus::NoPath
        &&& t.view_open() == s.view_open()
        &&& t.view_closed() == s.view_closed()
        &&& t.view_links() == s.view_links()
        &&& t.view_costs() == s.view_costs()
        &&& t.view_path() == s.view_path()
        &&& t.view_paths() == s.view_paths()
    } else {
        exists|c: Coord|
            #[trigger] picks(
                s.view_algorithm(),
                s.view_heuristic(),
                s.view_goal(),
                s.view_open(),
                s.view_costs(),
                c,
            ) && expands(s, t, g, c)
    }
}

/// What the one K-Shortest step on grid `g` does: the whole search runs and
/// the frontier is cleared.
pub open spec fn ran_k_shortest(s: Solver, t: Solver, g: Seq<Seq<Cell>>) -> bool {
    &&& t.is_finished()
    &&& t.view_open() == Seq::<Coord>::empty()
    &&& t.view_closed() == s.view_closed()
    &&& t.view_links() == s.view_links()
    &&& t.view_costs() == s.view_costs()
    &&& (t.view_status() == SolverStatus::NoPath <==> !walks::reachable(
        g,
        Seq::empty(),
        Seq::empty(),
        s.view_start(),
        s.view_goal(),
    ))
    &&& t.view_status() == SolverStatus::Found ==> {
        &&& k_paths_facts(g, t.view_paths(), s.view_start(), s.view_goal())
        &&& t.view_paths().len() <= s.view_k()
        &&& t.view_path() == t.view_paths()[0]
        &&& forall|p: Seq<Coord>|
            #[trigger] walks::is_route(g, p, s.view_start(), s.view_goal()) && !t.view_paths().contains(p)
                ==> t.view_paths().len() == s.view_k()
    }
    &&& t.view_status() == SolverStatus::NoPath ==> t.view_path().len() == 0 && t.view_paths().len() == 0
}

/// What one call of `step` with a maze whose grid is `g` does.
pub open spec fn stepped(s: Solver, t: Solver, g: Seq<Seq<Cell>>) -> bool {
    &&& t.view_algorithm() == s.view_algorithm()
    &&& t.view_heuristic() == s.view_heuristic()
    &&& t.view_start() == s.view_start()
    &&& t.view_goal() == s.view_goal()
    &&& t.view_k() == s.view_k()
    &&& if s.is_finished() {
        &&& t.view_status() == s.view_status()
        &&& t.view_path() == s.view_path()
        &&& t.view_paths() == s.view_paths()
        &&& t.view_open() == s.view_open()
        &&& t.view_closed() == s.view_closed()
        &&& t.view_links() == s.view_links()
        &&& t.view_costs() == s.view_costs()
        &&& forall|m: Seq<Seq<Cell>>| #[trigger] t.only_saw(m) == s.only_saw(m)
    } else {
        &&& forall|m: Seq<Seq<Cell>>| #[trigger] t.only_saw(m) == (s.only_saw(m) && m == g)
        &&& if s.view_algorithm() == Algorithm::KShortest {
            ran_k_shortest(s, t, g)
        } else {
            searched(s, t, g)
        }
    }
}

/// Removing one entry of a list without repeats.
proof fn lemma_without(s: Seq<Coord>, i: int)
    requires
        s.no_duplicates(),
        0 <= i < s.len(),
    ensures
        without(s, s[i]) == s.remove(i),
    decreases s.len(),
{
    let c = s[i];
    let p = s.drop_last();
    let keep = other_than(c);
    if i == s.len() - 1 {
        lemma_select_all(p, keep);
        assert(p =~= s.remove(i));
    } else {
        assert(p[i] == c);
        lemma_without(p, i);
        assert(s.last() != c);
        assert(s.remove(i) =~= p.remove(i).push(s.last()));
    }
}

/// Selecting with a test that every entry passes keeps the whole list.
proof fn lemma_select_all(s: Seq<Coord>, keep: spec_fn(Coord) -> bool)
    requires
        forall|j: int| 0 <= j < s.len() ==> keep(#[trigger] s[j]),
    ensures
        select(s, keep) == s,
    decreases s.len(),
{
    if s.len() > 0 {
        lemma_select_all(s.drop_last(), keep);
        assert(keep(s[s.len() - 1]));
        assert(s.drop_last().push(s.last()) =~= s);
    }
}

/// Two tests that agree on every entry select the same entries.
proof fn lemma_select_agree(s: Seq<Coord>, k1: spec_fn(Coord) -> bool, k2: spec_fn(Coord) -> bool)
    requires
        forall|j: int| 0 <= j < s.len() ==> k1(#[trigger] s[j]) == k2(s[j]),
    ensures
        select(s, k1) == select(s, k2),
    decreases s.len(),
{
    if s.len() > 0 {
        lemma_select_agree(s.drop_last(), k1, k2);
        assert(k1(s[s.len() - 1]) == k2(s[s.len() - 1]));
    }
}

/// Assigning to one more cell is one more insertion.
proof fn lemma_assign_push<V>(m: Map<Coord, V>, ns: Seq<Coord>, n: Coord, v: V)
    ensures
        assign(m, ns.push(n), v) == assign(m, ns, v).insert(n, v),
{
    assert forall|x: Coord| #[trigger] ns.push(n).contains(x) <==> ns.contains(x) || x == n by {
        if ns.push(n).contains(x) && x != n {
            let j = choose|j: int| 0 <= j < ns.len() + 1 && ns.push(n)[j] == x;
            assert(ns[j] == x);
        }
        if ns.contains(x) {
            let j = choose|j: int| 0 <= j < ns.len() && ns[j] == x;
            assert(ns.push(n)[j] == x);
        }
        assert(ns.push(n)[ns.len() as int] == n);
    }
    assert(assign(m, ns.push(n), v) =~= assign(m, ns, v).insert(n, v));
}

/// A cell is in a concatenation exactly when it is in one of the parts.
proof fn lemma_concat_contains(a: Seq<Coord>, b: Seq<Coord>, n: Coord)
    ensures
        (a + b).contains(n) <==> a.contains(n) || b.contains(n),
{
    if (a + b).contains(n) {
        let j = choose|j: int| 0 <= j < (a + b).len() && (a + b)[j] == n;
        if j >= a.len() {
            assert(b[j - a.len()] == n);
        }
    }
    if a.contains(n) {
        let j = choose|j: int| 0 <= j < a.len() && a[j] == n;
        assert((a + b)[j] == n);
    }
    if b.contains(n) {
        let j = choose|j: int| 0 <= j < b.len() && b[j] == n;
        assert((a + b)[a.len() + j] == n);
    }
}

/// Remove the entry `c` from a list without repeats that holds it.
fn remove_coord(v: &mut Vec<Coord>, c: Coord)
    requires
        old(v)@.no_duplicates(),
        old(v)@.contains(c),
    ensures
        final(v)@ == without(old(v)@, c),
{
    let mut i: usize = 0;
    while i < v.len()
        invariant
            i <= v@.len(),
            v@ == old(v)@,
            v@.no_duplicates(),
            v@.contains(c),
            forall|j: int| 0 <= j < i ==> v@[j] != c,
        decreases v@.len() - i,
    {
        if v[i].0 == c.0 && v[i].1 == c.1 {
            proof {
                lemma_without(v@, i as int);
            }
            v.remove(i);
            return;
        }
        i = i + 1;
    }
}

/// A copy of a path.
fn copy_path(p: &Vec<Coord>) -> (r: Vec<Coord>)
    ensures
        r@ == p@,
{
    let mut r: Vec<Coord> = Vec::new();
    let mut i: usize = 0;
    while i < p.len()
        invariant
            i <= p@.len(),
            r@ == p@.take(i as int),
        decreases p@.len() - i,
    {
        r.push(p[i]);
        i = i + 1;
        assert(r@ =~= p@.take(i as int));
    }
    assert(p@.take(p@.len() as int) =~= p@);
    r
}

impl Solver {
    pub closed spec fn view_algorithm(&self) -> Algorithm {
        self.algorithm
    }

    pub closed spec fn view_heuristic(&self) -> Heuristic {
        self.heuristic
    }

    pub closed spec fn view_start(&self) -> Coord {
        self.start
    }

    pub closed spec fn view_goal(&self) -> Coord {
        self.goal
    }

    pub closed spec fn view_status(&self) -> SolverStatus {
        self.status
    }

    pub closed spec fn view_path(&self) -> Seq<Coord> {
        self.path@
    }

    pub closed spec fn view_paths(&self) -> Seq<Seq<Coord>> {
        k_paths::path_views(self.paths@)
    }

    /// The frontier: cells discovered and waiting to be expanded.
    pub closed spec fn view_open(&self) -> Seq<Coord> {
        self.open_set@
    }

    /// The expanded cells, in the order they were expanded.
    pub closed spec fn view_closed(&self) -> Seq<Coord> {
        self.closed@
    }

    /// For each discovered cell other than the start, the cell it was reached from.
    pub closed spec fn view_links(&self) -> Map<Coord, Coord> {
        self.came_from.view()
    }

    /// A*: the cost of the cheapest known way to each discovered cell.
    pub closed spec fn view_costs(&self) -> Map<Coord, u64> {
        self.g_score.view()
    }

    pub closed spec fn view_k(&self) -> nat {
        self.k as nat
    }

    /// Every step so far (if any) was given a maze whose grid is `g`.
    pub closed spec fn only_saw(&self, g: Seq<Seq<Cell>>) -> bool {
        self.uniform@ && (self.seen@ matches Some(m) ==> m == g)
    }

    /// Whether the run has stopped.
    pub open spec fn is_finished(&self) -> bool {
        self.view_status() != SolverStatus::Running
    }

    /// The internal consistency of a solver.
    pub closed spec fn wf(&self) -> bool {
        &&& self.frame_ok()
        &&& self.status_ok()
        &&& self.seen_ok()
        &&& self.bfs_ok()
        &&& self.astar_ok()
    }

    /// Frontier, costs and links: what holds whatever the status.
    closed spec fn frame_ok(&self) -> bool {
        let open = self.open_set@;
        let closed = self.closed@;
        let cf = self.came_from.view();
        let gm = self.g_score.view();
        &&& self.k >= 1
        &&& open.no_duplicates()
        &&& closed.no_duplicates()
        &&& forall|c: Coord| !(#[trigger] open.contains(c) && closed.contains(c))
        &&& self.seen@ is None ==> self.status == SolverStatus::Running && closed.len() == 0 && cf
            == Map::<Coord, Coord>::empty() && self.depth@ == map![self.start => 0int]
        &&& (self.status == SolverStatus::Running && closed.len() == 0) ==> open == seq![self.start]
        &&& closed.len() > 0 ==> closed[0] == self.start
        &&& (self.algorithm == Algorithm::AStar ==> {
            &&& heap_ok(self.open_heap@, open, gm, self.heuristic, self.goal)
            &&& gm.contains_key(self.start) && gm[self.start] == 0
            &&& forall|c: Coord|
                #![trigger open.contains(c)]
                #![trigger closed.contains(c)]
                (open.contains(c) || closed.contains(c)) ==> gm.contains_key(c)
            &&& self.status == SolverStatus::Running ==> forall|c: Coord|
                #[trigger] gm.contains_key(c) ==> open.contains(c) || closed.contains(c)
            &&& self.status == SolverStatus::Running ==> forall|i: int|
                0 <= i < self.open_heap@.len() ==> open.contains(#[trigger] self.open_heap@[i].coord)
                    || closed.contains(self.open_heap@[i].coord)
        })
        &&& !cf.contains_key(self.start)
        &&& forall|c: Coord|
            #[trigger] cf.contains_key(c) ==> walks::adjacent(cf[c], c) && closed.contains(cf[c])
        &&& forall|i: int, j: int|
            0 <= i < closed.len() && 0 <= j < closed.len() && cf.contains_key(#[trigger] closed[j])
                && cf[closed[j]] == #[trigger] closed[i] ==> i < j
        &&& forall|c: Coord|
            #![trigger open.contains(c)]
            #![trigger closed.contains(c)]
            (open.contains(c) || closed.contains(c)) && c != self.start ==> cf.contains_key(c)
    }

    /// What each status promises.
    closed spec fn status_ok(&self) -> bool {
        let open = self.open_set@;
        let closed = self.closed@;
        let cf = self.came_from.view();
        &&& (self.algorithm != Algorithm::KShortest ==> match self.status {
            SolverStatus::Running => {
                &&& self.path@.len() == 0
                &&& self.paths@.len() == 0
                &&& !closed.contains(self.goal)
                &&& (open.contains(self.start) || closed.contains(self.start))
            },
            SolverStatus::Found => {
                &&& traces(cf, self.path@, self.start, self.goal)
                &&& walks::is_chain(self.path@, self.start, self.goal)
                &&& k_paths::path_views(self.paths@) == seq![self.path@]
            },
            SolverStatus::NoPath => {
                &&& open.len() == 0
                &&& self.path@.len() == 0
                &&& self.paths@.len() == 0
                &&& !closed.contains(self.goal)
            },
        })
        &&& (self.algorithm == Algorithm::KShortest ==> {
            &&& self.status != SolverStatus::Running ==> open.len() == 0
            &&& closed.len() == 0
            &&& cf == Map::<Coord, Coord>::empty()
            &&& match self.status {
                SolverStatus::Running => self.path@.len() == 0 && self.paths@.len() == 0 && self.seen@ is None,
                SolverStatus::Found => {
                    &&& self.paths@.len() > 0
                    &&& self.path@ == self.paths@[0]@
                    &&& self.seen@ matches Some(m) && k_paths_facts(
                        m,
                        k_paths::path_views(self.paths@),
                        self.start,
                        self.goal,
                    )
                },
                SolverStatus::NoPath => {
                    &&& self.path@.len() == 0
                    &&& self.paths@.len() == 0
                    &&& self.seen@ matches Some(m) && !walks::reachable(
                        m,
                        Seq::empty(),
                        Seq::empty(),
                        self.start,
                        self.goal,
                    )
                },
            }
        })
    }

    /// When every step saw one maze: each link is a legal move in it; while
    /// running, every legal move out of an expanded cell leads to a
    /// discovered cell; a path was found only from an open start; and no
    /// path was reported either for an endpoint that is not open or once
    /// the start was expanded and the moves out of the expanded cells stayed
    /// among them.
    closed spec fn seen_ok(&self) -> bool {
        let open = self.open_set@;
        let closed = self.closed@;
        let cf = self.came_from.view();
        (self.uniform@ && self.algorithm != Algorithm::KShortest) ==> (self.seen@ matches Some(m) ==> {
            &&& forall|c: Coord|
                #[trigger] cf.contains_key(c) ==> walks::step_ok(m, Seq::empty(), Seq::empty(), cf[c], c)
            &&& self.status == SolverStatus::Running ==> closed_moves_ok(m, open, closed)
            &&& self.status == SolverStatus::Found ==> walks::is_open(m, self.start)
            &&& self.status == SolverStatus::NoPath ==> !(walks::is_open(m, self.start) && walks::is_open(
                m,
                self.goal,
            )) || (closed.contains(self.start) && closed_moves_ok(m, open, closed))
        })
    }

    /// BFS, when every step saw one maze: discovered cells (expanded, then
    /// queued) carry their depth, depths never decrease along the queue and
    /// span at most one layer on the frontier, each move out of an expanded
    /// cell reaches a discovered cell at most one layer deeper, and every
    /// walk no longer than the head's depth ends on a discovered cell no
    /// deeper than its length. A path found is a shortest one.
    closed spec fn bfs_ok(&self) -> bool {
        let open = self.open_set@;
        let closed = self.closed@;
        let q = closed + open;
        let d = self.depth@;
        let cf = self.came_from.view();
        (self.uniform@ && self.algorithm == Algorithm::BFS) ==> (self.seen@ matches Some(m) ==> {
            &&& d.contains_key(self.start) && d[self.start] == 0
            &&& forall|c: Coord| #[trigger] q.contains(c) ==> d.contains_key(c) && d[c] >= 0
            &&& forall|c: Coord|
                #[trigger] cf.contains_key(c) ==> d.contains_key(c) && d.contains_key(cf[c]) && d[c] == d[cf[c]] + 1
            &&& self.status == SolverStatus::Running ==> {
                &&& forall|i: int, j: int| 0 <= i <= j < q.len() ==> d[q[i]] <= d[q[j]]
                &&& open.len() > 0 ==> d[q.last()] <= d[open[0]] + 1
                &&& forall|k: int, n: Coord|
                    0 <= k < closed.len() && #[trigger] walks::step_ok(m, Seq::empty(), Seq::empty(), closed[k], n)
                        ==> q.contains(n) && d[n] <= d[closed[k]] + 1
                &&& open.len() > 0 ==> forall|p: Seq<Coord>|
                    #[trigger] walks::walk_from(m, p, self.start) && p.len() - 1 <= d[open[0]] ==> q.contains(p.last())
                        && d[p.last()] <= p.len() - 1
            }
            &&& self.status == SolverStatus::Found ==> shortest_route(m, self.path@, self.start, self.goal)
        })
    }

    /// A*, when every step saw one maze: each link costs one move, the cost
    /// of the `i`-th expanded cell is at most `i` and of a frontier cell at
    /// most the number of expanded cells; no walk reaches an expanded cell
    /// more cheaply than its cost, and a move out of an expanded cell to a
    /// cell not expanded costs at most one more. A path found is a shortest
    /// one.
    closed spec fn astar_ok(&self) -> bool {
        let open = self.open_set@;
        let closed = self.closed@;
        let gm = self.g_score.view();
        let cf = self.came_from.view();
        (self.uniform@ && self.algorithm == Algorithm::AStar) ==> (self.seen@ matches Some(m) ==> {
            &&& forall|x: Coord|
                #[trigger] cf.contains_key(x) ==> gm.contains_key(x) && gm.contains_key(cf[x]) && gm[x] == gm[cf[x]] + 1
            &&& forall|i: int| 0 <= i < closed.len() ==> gm[#[trigger] closed[i]] <= i
            &&& forall|n: Coord| #[trigger] open.contains(n) ==> gm[n] <= closed.len()
            &&& self.status == SolverStatus::Running ==> {
                &&& forall|i: int, w: Seq<Coord>|
                    0 <= i < closed.len() && #[trigger] walks::walk_from(m, w, self.start) && w.last() == #[trigger] closed[i]
                        ==> gm[closed[i]] <= w.len() - 1
                &&& forall|i: int, n: Coord|
                    0 <= i < closed.len() && #[trigger] walks::step_ok(m, Seq::empty(), Seq::empty(), closed[i], n)
                        && !closed.contains(n) ==> gm.contains_key(n) && gm[n] <= gm[closed[i]] + 1
            }
            &&& self.status == SolverStatus::Found ==> shortest_route(m, self.path@, self.start, self.goal)
        })
    }
}

impl Solver {
    /// Build a fresh solver. The start cell is put on the frontier at once;
    /// no work has been done yet.
    pub fn new(algorithm: Algorithm, heuristic: Heuristic, start: Coord, goal: Coord) -> (s: Self)
        ensures
            s.wf(),
            s.view_algorithm() == algorithm,
            s.view_heuristic() == heuristic,
            s.view_start() == start,
            s.view_goal() == goal,
            s.view_status() == SolverStatus::Running,
            s.view_path().len() == 0,
            s.view_paths().len() == 0,
            s.view_k() == 1,
            s.view_open() == seq![start],
            s.view_closed().len() == 0,
            s.view_links() == Map::<Coord, Coord>::empty(),
            s.view_costs() == map![start => 0u64],
            forall|g: Seq<Seq<Cell>>| s.only_saw(g),
    {
        let mut open_heap: Vec<OpenNode> = Vec::new();
        let mut open_set: Vec<Coord> = Vec::new();
        let mut g_score: CoordMap<u64> = CoordMap::new();
        g_score.insert(start, 0);
        open_set.push(start);
        if let Algorithm::AStar = algorithm {
            let f = heuristic.estimate(start, goal);
            open_heap.push(OpenNode { f, coord: start });
        }
        let s = Solver {
            algorithm,
            heuristic,
            start,
            goal,
            status: SolverStatus::Running,
            open_set,
            open_heap,
            closed: Vec::new(),
            came_from: CoordMap::new(),
            g_score,
            path: Vec::new(),
            paths: Vec::new(),
            k: 1,
            seen: Ghost(None),
            uniform: Ghost(true),
            depth: Ghost(Map::empty().insert(start, 0int)),
        };
        proof {
            assert(s.open_set@[0] == start);
            assert(s.open_set@.contains(start));
            assert forall|c: Coord| #[trigger] s.open_set@.contains(c) implies c == start by {}
            if algorithm == Algorithm::AStar {
                let gm = s.g_score.view();
                assert(gm.contains_key(start));
                assert(s.open_heap@[0].coord == start);
                assert(s.open_heap@[0].f == priority(heuristic, goal, gm, start));
            }
            assert(s.view_paths() =~= Seq::<Seq<Coord>>::empty());
            assert(s.came_from.view() =~= Map::<Coord, Coord>::empty());
        }
        s
    }

    /// Set how many paths to look for, at least one. Only K-Shortest uses it.
    pub fn with_k(self, k: usize) -> (s: Self)
        requires
            self.wf(),
        ensures
            s.wf(),
            s.view_k() == if k >= 1 { k as nat } else { 1 },
            s.view_algorithm() == self.view_algorithm(),
            s.view_heuristic() == self.view_heuristic(),
            s.view_start() == self.view_start(),
            s.view_goal() == self.view_goal(),
            s.view_status() == self.view_status(),
            s.view_path() == self.view_path(),
            s.view_paths() == self.view_paths(),
            s.view_open() == self.view_open(),
            s.view_closed() == self.view_closed(),
            s.view_links() == self.view_links(),
            s.view_costs() == self.view_costs(),
            forall|g: Seq<Seq<Cell>>| s.only_saw(g) == self.only_saw(g),
    {
        let mut s = self;
        s.k = if k >= 1 { k } else { 1 };
        s
    }

    pub fn algorithm(&self) -> (r: Algorithm)
        ensures
            r == self.view_algorithm(),
    {
        self.algorithm
    }

    pub fn status(&self) -> (r: SolverStatus)
        ensures
            r == self.view_status(),
    {
        self.status
    }

    pub fn finished(&self) -> (r: bool)
        ensures
            r == self.is_finished(),
    {
        match self.status {
            SolverStatus::Running => false,
            _ => true,
        }
    }

    /// The path found (empty until one is).
    pub fn path(&self) -> (r: &[Coord])
        ensures
            r@ == self.view_path(),
    {
        self.path.as_slice()
    }

    /// All paths found. For single-path algorithms this mirrors
    /// [`Self::path`] as a one-entry list; for K-Shortest it holds up to `k`
    /// distinct paths, the shortest first.
    pub fn paths(&self) -> (r: &[Vec<Coord>])
        ensures
            k_paths::path_views(r@) == self.view_paths(),
    {
        self.paths.as_slice()
    }

    /// All cells currently waiting to be expanded (the frontier).
    pub fn open_cells(&self) -> (r: &[Coord])
        ensures
            r@ == self.view_open(),
    {
        self.open_set.as_slice()
    }

    /// All cells that have already been expanded.
    pub fn closed_cells(&self) -> (r: &[Coord])
        ensures
            r@ == self.view_closed(),
    {
        self.closed.as_slice()
    }
}

/// All fields but the frontier and the A* priorities agree.
spec fn rest_same(a: Solver, b: Solver) -> bool {
    &&& a.algorithm == b.algorithm
    &&& a.heuristic == b.heuristic
    &&& a.start == b.start
    &&& a.goal == b.goal
    &&& a.status == b.status
    &&& a.closed@ == b.closed@
    &&& a.came_from.view() == b.came_from.view()
    &&& a.g_score.view() == b.g_score.view()
    &&& a.path@ == b.path@
    &&& a.paths@ == b.paths@
    &&& a.k == b.k
    &&& a.seen@ == b.seen@
    &&& a.uniform@ == b.uniform@
    &&& a.depth@ == b.depth@
}

impl Solver {
    /// Take the next cell off the frontier: the top of the DFS stack, the
    /// head of the BFS queue, or an A* cell of least priority.
    fn pop_open(&mut self) -> (r: Option<Coord>)
        requires
            old(self).algorithm != Algorithm::KShortest,
            old(self).open_set@.no_duplicates(),
            old(self).algorithm == Algorithm::AStar ==> heap_ok(
                old(self).open_heap@,
                old(self).open_set@,
                old(self).g_score.view(),
                old(self).heuristic,
                old(self).goal,
            ),
        ensures
            rest_same(*final(self), *old(self)),
            forall|i: int|
                0 <= i < final(self).open_heap@.len() ==> old(self).open_heap@.contains(
                    #[trigger] final(self).open_heap@[i],
                ),
            old(self).open_set@.len() == 0 ==> r is None && final(self).open_set@ == old(self).open_set@,
            old(self).open_set@.len() > 0 ==> (r matches Some(c) && old(self).open_set@.contains(c) && picks(
                old(self).algorithm,
                old(self).heuristic,
                old(self).goal,
                old(self).open_set@,
                old(self).g_score.view(),
                c,
            ) && final(self).open_set@ == without(old(self).open_set@, c)),
            old(self).algorithm == Algorithm::AStar ==> heap_ok(
                final(self).open_heap@,
                final(self).open_set@,
                final(self).g_score.view(),
                final(self).heuristic,
                final(self).goal,
            ),
    {
        let n = self.open_set.len();
        if n == 0 {
            return None;
        }
        let c = match self.algorithm {
            Algorithm::DFS => self.open_set[n - 1],
            Algorithm::BFS => self.open_set[0],
            _ => {
                let ghost open = self.open_set@;
                let ghost gm = self.g_score.view();
                let ghost hr = self.heuristic;
                let ghost goal = self.goal;
                // The entry of least priority whose cell is still on the frontier.
                let mut best: usize = 0;
                let mut found = false;
                let mut j: usize = 0;
                while j < self.open_heap.len()
                    invariant
                        j <= self.open_heap@.len(),
                        open == self.open_set@,
                        found ==> best < j && open.contains(self.open_heap@[best as int].coord),
                        found ==> forall|t: int|
                            0 <= t < j && open.contains(#[trigger] self.open_heap@[t].coord)
                                ==> self.open_heap@[best as int].f <= self.open_heap@[t].f,
                        !found ==> forall|t: int| 0 <= t < j ==> !open.contains(#[trigger] self.open_heap@[t].coord),
                    decreases self.open_heap@.len() - j,
                {
                    let e = self.open_heap[j];
                    if contains_coord(&self.open_set, e.coord) {
                        if !found || e.f < self.open_heap[best].f {
                            best = j;
                            found = true;
                        }
                    }
                    j = j + 1;
                }
                proof {
                    assert(open[0] == open[0]);
                    assert(open.contains(open[0]));
                    let i = choose|i: int|
                        0 <= i < self.open_heap@.len() && (#[trigger] self.open_heap@[i]).coord == open[0]
                            && self.open_heap@[i].f == priority(hr, goal, gm, open[0]);
                    assert(found);
                }
                let e = self.open_heap.remove(best);
                proof {
                    let h0 = old(self).open_heap@;
                    let c = e.coord;
                    assert(h0[best as int] == e);
                    assert(e.f >= priority(hr, goal, gm, c));
                    assert forall|d: Coord| #[trigger] open.contains(d) implies priority(hr, goal, gm, c) <= priority(
                        hr,
                        goal,
                        gm,
                        d,
                    ) by {
                        let t = choose|t: int|
                            0 <= t < h0.len() && (#[trigger] h0[t]).coord == d && h0[t].f == priority(hr, goal, gm, d);
                    }
                }
                e.coord
            },
        };
        let ghost h1 = self.open_heap@;
        let ghost open = self.open_set@;
        proof {
            if self.algorithm == Algorithm::DFS {
                assert(open.contains(open[n - 1]));
            } else if self.algorithm == Algorithm::BFS {
                assert(open.contains(open[0]));
            }
        }
        remove_coord(&mut self.open_set, c);
        proof {
            assert forall|i: int| 0 <= i < h1.len() implies old(self).open_heap@.contains(#[trigger] h1[i]) by {
                if self.algorithm == Algorithm::AStar {
                    let h0 = old(self).open_heap@;
                    let b = choose|b: int| 0 <= b < h0.len() && h1 == h0.remove(b);
                    if i < b {
                        assert(h0[i] == h1[i]);
                    } else {
                        assert(h0[i + 1] == h1[i]);
                    }
                } else {
                    assert(old(self).open_heap@[i] == h1[i]);
                }
            }
            if self.algorithm == Algorithm::AStar {
                let h0 = old(self).open_heap@;
                let gm = self.g_score.view();
                let hr = self.heuristic;
                let goal = self.goal;
                let open2 = self.open_set@;
                lemma_select(open, other_than(c));
                let b = choose|b: int| 0 <= b < h0.len() && h0[b].coord == c && h1 == h0.remove(b);
                assert forall|d: Coord| #[trigger] open2.contains(d) implies exists|i: int|
                    0 <= i < h1.len() && (#[trigger] h1[i]).coord == d && h1[i].f == priority(hr, goal, gm, d) by {
                    assert(open.contains(d) && d != c);
                    let t = choose|t: int|
                        0 <= t < h0.len() && (#[trigger] h0[t]).coord == d && h0[t].f == priority(hr, goal, gm, d);
                    if t < b {
                        assert(h1[t] == h0[t]);
                    } else {
                        assert(h1[t - 1] == h0[t]);
                    }
                }
                assert forall|i: int|
                    0 <= i < h1.len() && open2.contains(#[trigger] h1[i].coord) implies h1[i].f >= priority(
                    hr,
                    goal,
                    gm,
                    h1[i].coord,
                ) by {
                    if i < b {
                        assert(h1[i] == h0[i]);
                    } else {
                        assert(h1[i] == h0[i + 1]);
                    }
                }
            }
        }
        Some(c)
    }
}

/// The position of `c` in `s`, or the length of `s` when it is absent.
spec fn pos(s: Seq<Coord>, c: Coord) -> int {
    if s.contains(c) {
        choose|i: int| 0 <= i < s.len() && s[i] == c
    } else {
        s.len() as int
    }
}

/// All fields but the path and the path list agree.
spec fn search_same(a: Solver, b: Solver) -> bool {
    &&& a.algorithm == b.algorithm
    &&& a.heuristic == b.heuristic
    &&& a.start == b.start
    &&& a.goal == b.goal
    &&& a.status == b.status
    &&& a.open_set@ == b.open_set@
    &&& a.open_heap@ == b.open_heap@
    &&& a.closed@ == b.closed@
    &&& a.came_from.view() == b.came_from.view()
    &&& a.g_score.view() == b.g_score.view()
    &&& a.k == b.k
    &&& a.seen@ == b.seen@
    &&& a.uniform@ == b.uniform@
    &&& a.depth@ == b.depth@
}

impl Solver {
    /// Read the path back from the goal along the links, then put it in
    /// start-to-goal order. The path list mirrors it as its only entry.
    fn reconstruct_path(&mut self, goal: Coord)
        requires
            goal == old(self).goal,
            !old(self).closed@.contains(goal),
            goal != old(self).start ==> old(self).came_from.view().contains_key(goal),
            old(self).closed@.no_duplicates(),
            !old(self).came_from.view().contains_key(old(self).start),
            forall|c: Coord|
                #[trigger] old(self).came_from.view().contains_key(c) ==> walks::adjacent(
                    old(self).came_from.view()[c],
                    c,
                ) && old(self).closed@.contains(old(self).came_from.view()[c]),
            forall|i: int, j: int|
                0 <= i < old(self).closed@.len() && 0 <= j < old(self).closed@.len()
                    && old(self).came_from.view().contains_key(#[trigger] old(self).closed@[j])
                    && old(self).came_from.view()[old(self).closed@[j]] == #[trigger] old(self).closed@[i] ==> i < j,
            forall|c: Coord|
                #[trigger] old(self).closed@.contains(c) && c != old(self).start ==> old(self).came_from.view().contains_key(c),
        ensures
            search_same(*final(self), *old(self)),
            traces(old(self).came_from.view(), final(self).path@, old(self).start, goal),
            walks::is_chain(final(self).path@, old(self).start, goal),
            k_paths::path_views(final(self).paths@) == seq![final(self).path@],
    {
        let ghost cf = self.came_from.view();
        let ghost closed = self.closed@;
        let start = self.start;
        let mut rev: Vec<Coord> = Vec::new();
        rev.push(goal);
        let mut cur = goal;
        loop
            invariant
                cf == self.came_from.view(),
                closed == self.closed@,
                start == self.start,
                self.goal == goal,
                !closed.contains(goal),
                goal != start ==> cf.contains_key(goal),
                closed.no_duplicates(),
                !cf.contains_key(start),
                forall|c: Coord| #[trigger] cf.contains_key(c) ==> walks::adjacent(cf[c], c) && closed.contains(cf[c]),
                forall|i: int, j: int|
                    0 <= i < closed.len() && 0 <= j < closed.len() && cf.contains_key(#[trigger] closed[j]) && cf[closed[j]]
                        == #[trigger] closed[i] ==> i < j,
                forall|c: Coord| #[trigger] closed.contains(c) && c != start ==> cf.contains_key(c),
                rev@.len() >= 1,
                rev@[0] == goal,
                rev@.last() == cur,
                cur == goal || closed.contains(cur),
                forall|t: int| 0 <= t < rev@.len() - 1 ==> cf.contains_key(#[trigger] rev@[t]) && cf[rev@[t]] == rev@[t + 1],
            ensures
                cur == start,
                rev@.len() >= 1,
                rev@[0] == goal,
                rev@.last() == cur,
                forall|t: int| 0 <= t < rev@.len() - 1 ==> cf.contains_key(#[trigger] rev@[t]) && cf[rev@[t]] == rev@[t + 1],
            decreases pos(closed, cur),
        {
            match self.came_from.get(cur) {
                None => {
                    break;
                },
                Some(prev) => {
                    proof {
                        assert(closed.contains(prev));
                        let i = choose|i: int| 0 <= i < closed.len() && closed[i] == prev;
                        assert(pos(closed, prev) == i);
                        if cur != goal {
                            let j = choose|j: int| 0 <= j < closed.len() && closed[j] == cur;
                            assert(pos(closed, cur) == j);
                            assert(i < j);
                        }
                    }
                    let ghost old_rev = rev@;
                    cur = prev;
                    rev.push(cur);
                    proof {
                        assert forall|t: int| 0 <= t < rev@.len() - 1 implies cf.contains_key(#[trigger] rev@[t])
                            && cf[rev@[t]] == rev@[t + 1] by {
                            if t < old_rev.len() - 1 {
                                assert(rev@[t] == old_rev[t]);
                            }
                        }
                    }
                    if cur.0 == start.0 && cur.1 == start.1 {
                        break;
                    }
                },
            }
        }
        let n = rev.len();
        let mut path: Vec<Coord> = Vec::new();
        let mut i: usize = 0;
        while i < n
            invariant
                n == rev@.len(),
                i <= n,
                path@.len() == i,
                forall|t: int| 0 <= t < i ==> #[trigger] path@[t] == rev@[n - 1 - t],
            decreases n - i,
        {
            path.push(rev[n - 1 - i]);
            i = i + 1;
        }
        proof {
            assert forall|t: int| 0 <= t < path@.len() - 1 implies cf.contains_key(#[trigger] path@[t + 1])
                && cf[path@[t + 1]] == path@[t] by {
                let u = n - 2 - t;
                assert(path@[t + 1] == rev@[u]);
                assert(path@[t] == rev@[u + 1]);
            }
            assert forall|t: int| 0 <= t < path@.len() - 1 implies #[trigger] walks::adjacent(path@[t], path@[t + 1]) by {
                assert(cf.contains_key(path@[t + 1]));
            }
        }
        let copy = copy_path(&path);
        let mut paths: Vec<Vec<Coord>> = Vec::new();
        paths.push(copy);
        self.path = path;
        self.paths = paths;
        assert(k_paths::path_views(self.paths@) =~= seq![self.path@]);
    }
}

/// The A* frontier entries for the cells `ns`, each reached at cost `v`.
spec fn entries(ns: Seq<Coord>, v: u64, hr: Heuristic, goal: Coord) -> Seq<OpenNode> {
    ns.map_values(|n: Coord| OpenNode { f: (v * COST_SCALE + spec_estimate(hr, n, goal)) as u128, coord: n })
}

/// The settings agree.
spec fn ids_same(a: Solver, b: Solver) -> bool {
    &&& a.algorithm == b.algorithm
    &&& a.heuristic == b.heuristic
    &&& a.start == b.start
    &&& a.goal == b.goal
    &&& a.k == b.k
}

/// The settings, status, result and ghost record agree.
spec fn core_same(a: Solver, b: Solver) -> bool {
    &&& a.algorithm == b.algorithm
    &&& a.heuristic == b.heuristic
    &&& a.start == b.start
    &&& a.goal == b.goal
    &&& a.status == b.status
    &&& a.path@ == b.path@
    &&& a.paths@ == b.paths@
    &&& a.k == b.k
    &&& a.seen@ == b.seen@
    &&& a.uniform@ == b.uniform@
}

/// All fields but the frontier, the A* priorities, the links and the costs agree.
spec fn frame_same(a: Solver, b: Solver) -> bool {
    core_same(a, b) && a.closed@ == b.closed@
}

impl Solver {
    /// Look at each neighbour of the just-expanded cell `c`: DFS and BFS put
    /// newly discovered open cells on the frontier; A* records a cheaper way
    /// to any open cell not yet expanded and (re)queues it.
    fn expand(&mut self, c: Coord, maze: &MazeGrid)
        requires
            old(self).algorithm != Algorithm::KShortest,
            cell::is_rectangular(cell::grid_view(maze)),
            old(self).algorithm == Algorithm::AStar ==> {
                &&& old(self).g_score.view().contains_key(c)
                &&& forall|n: Coord|
                    #[trigger] old(self).g_score.view().contains_key(n) ==> old(self).open_set@.contains(n)
                        || old(self).closed@.contains(n)
            },
        ensures
            frame_same(*final(self), *old(self)),
            final(self).open_set@ == old(self).open_set@ + fresh(
                cell::grid_view(maze),
                c,
                old(self).open_set@,
                old(self).closed@,
            ),
            old(self).algorithm == Algorithm::AStar ==> {
                let better = improved(cell::grid_view(maze), c, old(self).closed@, old(self).g_score.view());
                let t = sat_inc(old(self).g_score.view()[c]);
                &&& final(self).came_from.view() == assign(old(self).came_from.view(), better, c)
                &&& final(self).g_score.view() == assign(old(self).g_score.view(), better, t)
                &&& final(self).open_heap@ == old(self).open_heap@ + entries(
                    better,
                    t,
                    old(self).heuristic,
                    old(self).goal,
                )
            },
            old(self).algorithm != Algorithm::AStar ==> {
                &&& final(self).came_from.view() == assign(
                    old(self).came_from.view(),
                    fresh(cell::grid_view(maze), c, old(self).open_set@, old(self).closed@),
                    c,
                )
                &&& final(self).g_score.view() == old(self).g_score.view()
                &&& final(self).open_heap@ == old(self).open_heap@
                &&& final(self).depth@ == assign(
                    old(self).depth@,
                    fresh(cell::grid_view(maze), c, old(self).open_set@, old(self).closed@),
                    old(self).depth@[c] + 1,
                )
            },
            old(self).algorithm == Algorithm::AStar ==> final(self).depth@ == old(self).depth@,
    {
        let ghost g = cell::grid_view(maze);
        let ghost open1 = self.open_set@;
        let ghost closed1 = self.closed@;
        let ghost cf0 = self.came_from.view();
        let ghost gm0 = self.g_score.view();
        let ghost heap1 = self.open_heap@;
        let ghost fk = fresh_keep(g, open1, closed1);
        let ghost ik = improved_keep(g, c, closed1, gm0);
        let ghost d0 = self.depth@;
        let ghost dc = d0[c] + 1;
        let gc: u64 = match self.g_score.get(c) {
            Some(v) => v,
            None => u64::MAX,
        };
        let tentative: u64 = if gc < u64::MAX {
            gc + 1
        } else {
            gc
        };
        assert(self.algorithm == Algorithm::AStar ==> tentative == sat_inc(gm0[c]));
        let nb = neighbors_4(c, maze);
        proof {
            lemma_nbrs(g, c);
            assert(nb@.take(0) =~= Seq::<Coord>::empty());
            assert(assign(d0, select(nb@.take(0), fk), dc) =~= d0);
            assert(assign(cf0, select(nb@.take(0), fk), c) =~= cf0);
            assert(assign(cf0, select(nb@.take(0), ik), c) =~= cf0);
            assert(assign(gm0, select(nb@.take(0), ik), tentative) =~= gm0);
        }
        let height = maze.len();
        let mut i: usize = 0;
        while i < nb.len()
            invariant
                g == cell::grid_view(maze),
                cell::is_rectangular(g),
                height == g.len(),
                nb@ == nbrs(g, c),
                nb@.no_duplicates(),
                forall|n: Coord| #[trigger] nbrs(g, c).contains(n) <==> walks::adjacent(c, n) && walks::in_bounds(g, n),
                i <= nb@.len(),
                frame_same(*self, *old(self)),
                self.algorithm != Algorithm::KShortest,
                open1 == old(self).open_set@,
                closed1 == old(self).closed@,
                cf0 == old(self).came_from.view(),
                gm0 == old(self).g_score.view(),
                heap1 == old(self).open_heap@,
                fk == fresh_keep(g, open1, closed1),
                ik == improved_keep(g, c, closed1, gm0),
                self.algorithm == Algorithm::AStar ==> tentative == sat_inc(gm0[c]),
                self.algorithm == Algorithm::AStar ==> forall|n: Coord|
                    #[trigger] gm0.contains_key(n) ==> open1.contains(n) || closed1.contains(n),
                self.open_set@ == open1 + select(nb@.take(i as int), fk),
                self.algorithm == Algorithm::AStar ==> {
                    &&& self.came_from.view() == assign(cf0, select(nb@.take(i as int), ik), c)
                    &&& self.g_score.view() == assign(gm0, select(nb@.take(i as int), ik), tentative)
                    &&& self.open_heap@ == heap1 + entries(
                        select(nb@.take(i as int), ik),
                        tentative,
                        self.heuristic,
                        self.goal,
                    )
                },
                self.algorithm != Algorithm::AStar ==> {
                    &&& self.came_from.view() == assign(cf0, select(nb@.take(i as int), fk), c)
                    &&& self.g_score.view() == gm0
                    &&& self.open_heap@ == heap1
                    &&& self.depth@ == assign(d0, select(nb@.take(i as int), fk), dc)
                },
                self.algorithm == Algorithm::AStar ==> self.depth@ == d0,
                d0 == old(self).depth@,
                dc == d0[c] + 1,
            decreases nb@.len() - i,
        {
            let n = nb[i];
            let ghost sf = select(nb@.take(i as int), fk);
            let ghost si = select(nb@.take(i as int), ik);
            proof {
                lemma_select(nb@.take(i as int), fk);
                lemma_select(nb@.take(i as int), ik);
                lemma_select_take(nb@, fk, i as int);
                lemma_select_take(nb@, ik, i as int);
                assert(nb@.take(i as int + 1) =~= nb@.take(i as int).push(n));
                assert(!nb@.take(i as int).contains(n));
                assert(!sf.contains(n));
                assert(!si.contains(n));
                assert(nbrs(g, c).contains(n));
                assert(g[n.1 as int].len() == cell::grid_width(g));
                assert(maze@[n.1 as int]@ == g[n.1 as int]);
            }
            let ghost open_now = self.open_set@;
            proof {
                lemma_concat_contains(open1, sf, n);
                lemma_assign_push(cf0, si, n, c);
                lemma_assign_push(cf0, sf, n, c);
                lemma_assign_push(gm0, si, n, tentative);
                lemma_assign_push(d0, sf, n, dc);
            }
            if !contains_coord(&self.closed, n) && maze[n.1][n.0] != Cell::Wall {
                assert(walks::is_open(g, n));
                match self.algorithm {
                    Algorithm::AStar => {
                        let better = match self.g_score.get(n) {
                            None => true,
                            Some(known) => tentative < known,
                        };
                        assert(better == ik(n));
                        if better {
                            self.came_from.insert(n, c);
                            self.g_score.insert(n, tentative);
                            let est = self.heuristic.estimate(n, self.goal);
                            let f = (tentative as u128) * COST_SCALE + est;
                            self.open_heap.push(OpenNode { f, coord: n });
                            if !contains_coord(&self.open_set, n) {
                                self.open_set.push(n);
                            }
                            proof {
                                assert(open_now.contains(n) == open1.contains(n));
                                assert(fk(n) == !open1.contains(n));
                                assert(entries(si.push(n), tentative, self.heuristic, self.goal) =~= entries(
                                    si,
                                    tentative,
                                    self.heuristic,
                                    self.goal,
                                ).push(OpenNode { f, coord: n }));
                            }
                        } else {
                            proof {
                                assert(open1.contains(n) || closed1.contains(n));
                                assert(!fk(n));
                            }
                        }
                    },
                    _ => {
                        if !contains_coord(&self.open_set, n) {
                            self.came_from.insert(n, c);
                            self.open_set.push(n);
                            proof {
                                self.depth@ = self.depth@.insert(n, dc);
                            }
                        }
                    },
                }
            }
            i = i + 1;
        }
        proof {
            assert(nb@.take(nb@.len() as int) =~= nb@);
        }
    }
}

/// Concatenating two lists without repeats and with no common entry gives
/// a list without repeats.
proof fn lemma_concat_no_dups(a: Seq<Coord>, b: Seq<Coord>)
    requires
        a.no_duplicates(),
        b.no_duplicates(),
        forall|n: Coord| !(#[trigger] a.contains(n) && b.contains(n)),
    ensures
        (a + b).no_duplicates(),
{
    let s = a + b;
    assert forall|i: int, j: int| 0 <= i < s.len() && 0 <= j < s.len() && i != j implies s[i] != s[j] by {
        if i < a.len() && j >= a.len() {
            assert(a.contains(s[i]));
            assert(b[j - a.len()] == s[j]);
            assert(b.contains(s[j]));
        } else if j < a.len() && i >= a.len() {
            assert(a.contains(s[j]));
            assert(b[i - a.len()] == s[i]);
            assert(b.contains(s[i]));
        } else if i >= a.len() && j >= a.len() {
            assert(s[i] == b[i - a.len()] && s[j] == b[j - a.len()]);
        }
    }
}

/// The state after expanding the frontier cell `c` (not the goal) of a
/// consistent running search `s0` on grid `g` is consistent. `h1` is the A*
/// priority list once `c` was taken off it.
proof fn lemma_expand_ok(s0: Solver, s1: Solver, g: Seq<Seq<Cell>>, c: Coord, h1: Seq<OpenNode>)
    requires
        s0.wf(),
        s0.status == SolverStatus::Running,
        s0.algorithm != Algorithm::KShortest,
        s0.seen@ is Some,
        s0.uniform@ ==> s0.seen@ == Some(g),
        s0.open_set@.contains(c),
        c != s0.goal,
        s0.algorithm == Algorithm::AStar ==> heap_ok(
            h1,
            without(s0.open_set@, c),
            s0.g_score.view(),
            s0.heuristic,
            s0.goal,
        ),
        s0.algorithm == Algorithm::AStar ==> forall|i: int|
            0 <= i < h1.len() ==> s0.open_heap@.contains(#[trigger] h1[i]),
        core_same(s1, s0),
        s1.closed@ == s0.closed@.push(c),
        s1.open_set@ == without(s0.open_set@, c) + fresh(
            g,
            c,
            without(s0.open_set@, c),
            s0.closed@.push(c),
        ),
        s0.algorithm == Algorithm::AStar ==> {
            let better = improved(g, c, s0.closed@.push(c), s0.g_score.view());
            let t = sat_inc(s0.g_score.view()[c]);
            &&& s1.came_from.view() == assign(s0.came_from.view(), better, c)
            &&& s1.g_score.view() == assign(s0.g_score.view(), better, t)
            &&& s1.open_heap@ == h1 + entries(better, t, s0.heuristic, s0.goal)
        },
        s0.algorithm != Algorithm::AStar ==> {
            &&& s1.came_from.view() == assign(
                s0.came_from.view(),
                fresh(g, c, without(s0.open_set@, c), s0.closed@.push(c)),
                c,
            )
            &&& s1.g_score.view() == s0.g_score.view()
        },
    ensures
        s1.frame_ok(),
        s1.status_ok(),
        s1.seen_ok(),
{
    let o0 = s0.open_set@;
    let c0 = s0.closed@;
    let l0 = s0.came_from.view();
    let g0 = s0.g_score.view();
    let o1 = without(o0, c);
    let c1 = c0.push(c);
    let f = fresh(g, c, o1, c1);
    let b = improved(g, c, c1, g0);
    let astar = s0.algorithm == Algorithm::AStar;
    let ns = if astar { b } else { f };
    let o2 = s1.open_set@;
    let l2 = s1.came_from.view();
    let g2 = s1.g_score.view();
    let t = sat_inc(g0[c]);
    lemma_nbrs(g, c);
    lemma_select(o0, other_than(c));
    lemma_select(nbrs(g, c), fresh_keep(g, o1, c1));
    lemma_select(nbrs(g, c), improved_keep(g, c, c1, g0));
    assert(!c0.contains(c));
    assert forall|n: Coord| #[trigger] c1.contains(n) <==> c0.contains(n) || n == c by {
        if c1.contains(n) && n != c {
            let j = choose|j: int| 0 <= j < c1.len() && c1[j] == n;
            assert(c0[j] == n);
        }
        if c0.contains(n) {
            let j = choose|j: int| 0 <= j < c0.len() && c0[j] == n;
            assert(c1[j] == n);
        }
        assert(c1[c0.len() as int] == c);
    }
    assert forall|n: Coord| #[trigger] o2.contains(n) <==> o1.contains(n) || f.contains(n) by {
        lemma_concat_contains(o1, f, n);
    }
    // The start was expanded first.
    assert(c1[0] == s0.start) by {
        if c0.len() == 0 {
            assert(o0 == seq![s0.start]);
            assert(o0[0] == c);
        }
    }
    assert(c1.contains(s0.start)) by {
        assert(c1[0] == s0.start);
    }
    // Discovered cells are the ones that get links.
    assert forall|n: Coord| #[trigger] f.contains(n) implies ns.contains(n) by {
        if astar {
            assert(!g0.contains_key(n));
        }
    }
    assert forall|n: Coord| #[trigger] ns.contains(n) implies !c1.contains(n) && walks::adjacent(c, n)
        && walks::is_open(g, n) && (o1.contains(n) || f.contains(n)) by {}
    assert forall|n: Coord| #[trigger] l2.contains_key(n) <==> l0.contains_key(n) || ns.contains(n) by {}
    assert forall|n: Coord| #[trigger] l2.contains_key(n) implies l2[n] == (if ns.contains(n) {
        c
    } else {
        l0[n]
    }) by {}
    // Frontier and expanded cells.
    assert(s1.frame_ok()) by {
        assert(c1.no_duplicates());
        lemma_concat_no_dups(o1, f);
        assert forall|n: Coord| !(#[trigger] o2.contains(n) && c1.contains(n)) by {}
        if astar {
            lemma_select(nbrs(g, c), improved_keep(g, c, c1, g0));
            assert forall|n: Coord| #[trigger] g2.contains_key(n) <==> g0.contains_key(n) || b.contains(n) by {}
            assert forall|n: Coord| #[trigger] g2.contains_key(n) implies g2[n] == (if b.contains(n) {
                t
            } else {
                g0[n]
            }) by {}
            let h2 = s1.open_heap@;
            let e = entries(b, t, s0.heuristic, s0.goal);
            assert forall|n: Coord| #[trigger] o2.contains(n) implies exists|i: int|
                0 <= i < h2.len() && (#[trigger] h2[i]).coord == n && h2[i].f == priority(
                    s0.heuristic,
                    s0.goal,
                    g2,
                    n,
                ) by {
                if b.contains(n) {
                    let j = choose|j: int| 0 <= j < b.len() && b[j] == n;
                    crate::solver::heuristic::lemma_estimate_bounds(s0.heuristic, n, s0.goal);
                    assert(h2[h1.len() + j] == e[j]);
                } else {
                    assert(o1.contains(n));
                    let i = choose|i: int|
                        0 <= i < h1.len() && (#[trigger] h1[i]).coord == n && h1[i].f == priority(
                            s0.heuristic,
                            s0.goal,
                            g0,
                            n,
                        );
                    assert(h2[i] == h1[i]);
                }
            }
            assert forall|i: int|
                0 <= i < h2.len() && o2.contains(#[trigger] h2[i].coord) implies h2[i].f >= priority(
                s0.heuristic,
                s0.goal,
                g2,
                h2[i].coord,
            ) by {
                let n = h2[i].coord;
                if i < h1.len() {
                    assert(h2[i] == h1[i]);
                    assert(s0.open_heap@.contains(h1[i]));
                    let j = choose|j: int| 0 <= j < s0.open_heap@.len() && s0.open_heap@[j] == h1[i];
                    assert(o0.contains(s0.open_heap@[j].coord) || c0.contains(s0.open_heap@[j].coord));
                    assert(o1.contains(n));
                    if b.contains(n) {
                        assert(g0.contains_key(n));
                        assert(t < g0[n]);
                    }
                } else {
                    let j = i - h1.len();
                    crate::solver::heuristic::lemma_estimate_bounds(s0.heuristic, n, s0.goal);
                    assert(h2[i] == e[j]);
                    assert(b[j] == n);
                }
            }
            assert(heap_ok(h2, o2, g2, s0.heuristic, s0.goal));
            assert forall|i: int| 0 <= i < h2.len() implies o2.contains(#[trigger] h2[i].coord) || c1.contains(
                h2[i].coord,
            ) by {
                if i < h1.len() {
                    assert(h2[i] == h1[i]);
                    assert(s0.open_heap@.contains(h1[i]));
                    let j = choose|j: int| 0 <= j < s0.open_heap@.len() && s0.open_heap@[j] == h1[i];
                    assert(o0.contains(s0.open_heap@[j].coord) || c0.contains(s0.open_heap@[j].coord));
                } else {
                    let j = i - h1.len();
                    assert(h2[i] == e[j]);
                    assert(b.contains(b[j]));
                }
            }
            assert(g2.contains_key(s0.start) && g2[s0.start] == 0);
            assert forall|n: Coord| (#[trigger] o2.contains(n) || c1.contains(n)) implies g2.contains_key(n) by {}
            assert forall|n: Coord| #[trigger] g2.contains_key(n) implies o2.contains(n) || c1.contains(n) by {}
        }
        assert forall|i: int, j: int|
            0 <= i < c1.len() && 0 <= j < c1.len() && l2.contains_key(#[trigger] c1[j]) && l2[c1[j]]
                == #[trigger] c1[i] implies i < j by {
            assert(!ns.contains(c1[j]));
            if j < c0.len() {
                assert(c1[j] == c0[j]);
                let y = l0[c0[j]];
                assert(c0.contains(y));
                let k = choose|k: int| 0 <= k < c0.len() && c0[k] == y;
                assert(c1[k] == y);
            } else {
                let y = l0[c];
                assert(c0.contains(y));
                let k = choose|k: int| 0 <= k < c0.len() && c0[k] == y;
                assert(c1[k] == y);
            }
        }
        assert forall|n: Coord| #[trigger] l2.contains_key(n) implies walks::adjacent(l2[n], n) && c1.contains(
            l2[n],
        ) by {}
        assert forall|n: Coord| (#[trigger] o2.contains(n) || c1.contains(n)) && n != s1.start implies l2.contains_key(
            n,
        ) by {}
    }
    assert(s1.status_ok()) by {
        assert(!c1.contains(s0.goal));
    }
    assert(s1.seen_ok()) by {
        if s1.uniform@ {
            assert(s0.seen@ == Some(g));
            assert forall|n: Coord| #[trigger] l2.contains_key(n) implies walks::step_ok(
                g,
                Seq::empty(),
                Seq::empty(),
                l2[n],
                n,
            ) by {}
            assert forall|i: int, n: Coord|
                0 <= i < c1.len() && #[trigger] walks::step_ok(
                    g,
                    Seq::empty(),
                    Seq::empty(),
                    c1[i],
                    n,
                ) implies o2.contains(n) || c1.contains(n) by {
                if i < c0.len() {
                    assert(c1[i] == c0[i]);
                    assert(o0.contains(n) || c0.contains(n));
                } else {
                    assert(c1[i] == c);
                    assert(nbrs(g, c).contains(n));
                }
            }
        }
    }
}

impl Solver {
    /// K-Shortest runs Yen's algorithm to completion in one call: the
    /// shortest route found becomes [`Self::path`].
    fn run_k_shortest(&mut self, maze: &MazeGrid)
        requires
            cell::is_rectangular(cell::grid_view(maze)),
            old(self).k >= 1,
        ensures
            search_same(
                Solver { status: final(self).status, ..*final(self) },
                Solver { status: final(self).status, ..*old(self) },
            ),
            final(self).status != SolverStatus::Running,
            (final(self).status == SolverStatus::NoPath <==> !walks::reachable(
                cell::grid_view(maze),
                Seq::empty(),
                Seq::empty(),
                old(self).start,
                old(self).goal,
            )),
            final(self).status == SolverStatus::Found ==> {
                &&& final(self).paths@.len() > 0
                &&& final(self).path@ == final(self).paths@[0]@
                &&& final(self).paths@.len() <= old(self).k
                &&& k_paths_facts(
                    cell::grid_view(maze),
                    k_paths::path_views(final(self).paths@),
                    old(self).start,
                    old(self).goal,
                )
                &&& forall|p: Seq<Coord>|
                    #[trigger] walks::is_route(cell::grid_view(maze), p, old(self).start, old(self).goal)
                        && !k_paths::path_views(final(self).paths@).contains(p) ==> final(self).paths@.len()
                        == old(self).k
            },
            final(self).status == SolverStatus::NoPath ==> final(self).path@.len() == 0
                && final(self).paths@.len() == 0,
    {
        let paths = k_paths::k_shortest_paths(maze, self.start, self.goal, self.k);
        if paths.len() == 0 {
            self.status = SolverStatus::NoPath;
            self.path = Vec::new();
            self.paths = paths;
        } else {
            self.path = copy_path(&paths[0]);
            self.status = SolverStatus::Found;
            self.paths = paths;
            proof {
                let v = k_paths::path_views(self.paths@);
                assert forall|i: int| 0 <= i < v.len() implies walks::is_route(
                    cell::grid_view(maze),
                    #[trigger] v[i],
                    self.start,
                    self.goal,
                ) by {
                    assert(v[i] == self.paths@[i]@);
                }
                assert forall|i: int, j: int| 0 <= i < j < v.len() implies v[i] != v[j] && v[i].len() <= v[j].len() by {
                    assert(v[i] == self.paths@[i]@ && v[j] == self.paths@[j]@);
                }
                assert(v[v.len() - 1] == self.paths@[v.len() - 1]@);
            }
        }
    }

    /// The frontier was empty: there is no path.
    fn finish_no_path(&mut self, Ghost(s0): Ghost<Solver>, Ghost(g): Ghost<Seq<Seq<Cell>>>)
        requires
            s0.wf(),
            endpoints_open(s0, g),
            s0.status == SolverStatus::Running,
            s0.algorithm != Algorithm::KShortest,
            s0.open_set@.len() == 0,
            rest_same(*old(self), s0),
            old(self).open_set@ == s0.open_set@,
            s0.algorithm == Algorithm::AStar ==> heap_ok(
                old(self).open_heap@,
                old(self).open_set@,
                old(self).g_score.view(),
                old(self).heuristic,
                old(self).goal,
            ),
            forall|i: int|
                0 <= i < old(self).open_heap@.len() ==> s0.open_heap@.contains(#[trigger] old(self).open_heap@[i]),
        ensures
            final(self).wf(),
            searched(s0, *final(self), g),
            ids_same(*final(self), s0),
            final(self).seen@ == s0.seen@,
            final(self).uniform@ == s0.uniform@,
    {
        self.status = SolverStatus::NoPath;
        proof {
            assert(self.frame_ok()) by {
                if self.algorithm == Algorithm::AStar {
                    assert forall|i: int| 0 <= i < self.open_heap@.len() implies self.open_set@.contains(
                        #[trigger] self.open_heap@[i].coord,
                    ) || self.closed@.contains(self.open_heap@[i].coord) by {
                        let j = choose|j: int| 0 <= j < s0.open_heap@.len() && s0.open_heap@[j] == self.open_heap@[i];
                        assert(s0.open_set@.contains(s0.open_heap@[j].coord) || s0.closed@.contains(
                            s0.open_heap@[j].coord,
                        ));
                    }
                }
            }
            assert(self.status_ok()) by {
                assert(!self.open_set@.contains(self.start));
            }
        }
    }

    /// The goal came off the frontier: read the path back.
    fn finish_found(&mut self, c: Coord, Ghost(s0): Ghost<Solver>, Ghost(g): Ghost<Seq<Seq<Cell>>>)
        requires
            s0.wf(),
            s0.uniform@ ==> s0.seen@ == Some(g),
            endpoints_open(s0, g),
            s0.status == SolverStatus::Running,
            s0.algorithm != Algorithm::KShortest,
            s0.seen@ is Some,
            s0.open_set@.contains(c),
            c == s0.goal,
            picks(s0.algorithm, s0.heuristic, s0.goal, s0.open_set@, s0.g_score.view(), c),
            rest_same(*old(self), s0),
            old(self).open_set@ == without(s0.open_set@, c),
            s0.algorithm == Algorithm::AStar ==> heap_ok(
                old(self).open_heap@,
                old(self).open_set@,
                old(self).g_score.view(),
                old(self).heuristic,
                old(self).goal,
            ),
        ensures
            final(self).wf(),
            searched(s0, *final(self), g),
            ids_same(*final(self), s0),
            final(self).seen@ == s0.seen@,
            final(self).uniform@ == s0.uniform@,
    {
        proof {
            lemma_select(s0.open_set@, other_than(c));
        }
        self.reconstruct_path(c);
        self.status = SolverStatus::Found;
        proof {
            let o0 = s0.open_set@;
            let o1 = self.open_set@;
            if self.algorithm == Algorithm::BFS && self.uniform@ {
                let m = s0.seen@->0;
                let cf = s0.came_from.view();
                let d = s0.depth@;
                let p = self.path@;
                let q0 = s0.closed@ + o0;
                let q1 = self.closed@ + o1;
                assert(c == o0[0]);
                assert forall|i: int| 0 <= i < p.len() - 1 implies #[trigger] walks::step_ok(
                    m,
                    Seq::empty(),
                    Seq::empty(),
                    p[i],
                    p[i + 1],
                ) by {
                    assert(cf.contains_key(p[i + 1]));
                }
                lemma_depth_at(cf, d, p, s0.start, s0.goal, p.len() - 1);
                assert forall|w: Seq<Coord>| #[trigger] walks::walk_from(m, w, s0.start) && w.last() == s0.goal implies p.len()
                    <= w.len() by {
                    if w.len() < p.len() {
                        assert(d[w.last()] <= w.len() - 1);
                    }
                }
                assert(shortest_route(m, p, s0.start, s0.goal));
                assert forall|n: Coord| #[trigger] q1.contains(n) implies q0.contains(n) by {
                    lemma_concat_contains(self.closed@, o1, n);
                    lemma_concat_contains(s0.closed@, o0, n);
                }
            }
            if self.algorithm == Algorithm::AStar && self.uniform@ {
                let m = s0.seen@->0;
                let cf = s0.came_from.view();
                let gm = s0.g_score.view();
                let d = gm.map_values(|v: u64| v as int);
                let p = self.path@;
                assert(s0.astar_ok());
                lemma_astar_pop(s0, m, c);
                assert forall|i: int| 0 <= i < p.len() - 1 implies #[trigger] walks::step_ok(
                    m,
                    Seq::empty(),
                    Seq::empty(),
                    p[i],
                    p[i + 1],
                ) by {
                    assert(cf.contains_key(p[i + 1]));
                }
                assert forall|x: Coord| #[trigger] cf.contains_key(x) implies d.contains_key(x) && d.contains_key(cf[x])
                    && d[x] == d[cf[x]] + 1 by {}
                lemma_depth_at(cf, d, p, s0.start, s0.goal, p.len() - 1);
                assert forall|w: Seq<Coord>| #[trigger] walks::walk_from(m, w, s0.start) && w.last() == s0.goal implies p.len()
                    <= w.len() by {
                    assert(gm[c] <= w.len() - 1);
                }
                assert(shortest_route(m, p, s0.start, s0.goal));
            }
            assert forall|n: Coord| #[trigger] o1.contains(n) implies o0.contains(n) && n != c by {}
            assert forall|n: Coord|
                #![trigger o1.contains(n)]
                #![trigger self.closed@.contains(n)]
                (o1.contains(n) || self.closed@.contains(n)) && n != self.start implies self.came_from.view().contains_key(
                n,
            ) by {
                if o1.contains(n) {
                    assert(o0.contains(n));
                }
            }
            if self.algorithm == Algorithm::AStar {
                assert forall|n: Coord|
                    #![trigger o1.contains(n)]
                    #![trigger self.closed@.contains(n)]
                    (o1.contains(n) || self.closed@.contains(n)) implies self.g_score.view().contains_key(n) by {
                    if o1.contains(n) {
                        assert(o0.contains(n));
                    }
                }
            }
            assert(self.frame_ok());
            assert(self.status_ok());
            assert(self.seen_ok());
            assert(expands(s0, *self, g, c));
        }
    }

    /// Expand the frontier cell `c`, which is not the goal.
    fn expand_cell(&mut self, c: Coord, maze: &MazeGrid, Ghost(s0): Ghost<Solver>)
        requires
            s0.wf(),
            endpoints_open(s0, cell::grid_view(maze)),
            s0.status == SolverStatus::Running,
            s0.algorithm != Algorithm::KShortest,
            s0.seen@ is Some,
            s0.uniform@ ==> s0.seen@ == Some(cell::grid_view(maze)),
            cell::is_rectangular(cell::grid_view(maze)),
            s0.open_set@.contains(c),
            c != s0.goal,
            picks(s0.algorithm, s0.heuristic, s0.goal, s0.open_set@, s0.g_score.view(), c),
            rest_same(*old(self), s0),
            old(self).open_set@ == without(s0.open_set@, c),
            s0.algorithm == Algorithm::AStar ==> heap_ok(
                old(self).open_heap@,
                old(self).open_set@,
                old(self).g_score.view(),
                old(self).heuristic,
                old(self).goal,
            ),
            forall|i: int|
                0 <= i < old(self).open_heap@.len() ==> s0.open_heap@.contains(#[trigger] old(self).open_heap@[i]),
        ensures
            final(self).wf(),
            searched(s0, *final(self), cell::grid_view(maze)),
            ids_same(*final(self), s0),
            final(self).seen@ == s0.seen@,
            final(self).uniform@ == s0.uniform@,
    {
        let ghost g = cell::grid_view(maze);
        let ghost h1 = self.open_heap@;
        proof {
            lemma_select(s0.open_set@, other_than(c));
        }
        self.closed.push(c);
        proof {
            if self.algorithm == Algorithm::AStar {
                assert forall|n: Coord| #[trigger] self.g_score.view().contains_key(n) implies self.open_set@.contains(
                    n,
                ) || self.closed@.contains(n) by {
                    if n == c {
                        assert(self.closed@[self.closed@.len() - 1] == c);
                    } else if s0.closed@.contains(n) {
                        let j = choose|j: int| 0 <= j < s0.closed@.len() && s0.closed@[j] == n;
                        assert(self.closed@[j] == n);
                    } else {
                        assert(s0.open_set@.contains(n));
                    }
                }
                assert(s0.g_score.view().contains_key(c));
            }
        }
        self.expand(c, maze);
        let expanded = self.closed.len();
        proof {
            assert(self.closed@.len() == expanded);
            lemma_expand_ok(s0, *self, g, c, h1);
            let o0 = s0.open_set@;
            let o1 = without(o0, c);
            let c1 = s0.closed@.push(c);
            lemma_nbrs(g, c);
            lemma_select_agree(nbrs(g, c), fresh_keep(g, o0, c1), fresh_keep(g, o1, c1));
            if self.algorithm == Algorithm::BFS {
                lemma_expand_bfs(s0, *self, g, c);
            }
            if self.algorithm == Algorithm::AStar {
                lemma_expand_astar(s0, *self, g, c);
            }
            assert(expands(s0, *self, g, c));
        }
    }

    /// An endpoint is not an open cell of `g`: no path, and nothing left to search.
    fn finish_blocked(&mut self, Ghost(g): Ghost<Seq<Seq<Cell>>>)
        requires
            old(self).wf(),
            old(self).status == SolverStatus::Running,
            old(self).algorithm != Algorithm::KShortest,
            old(self).seen@ is Some,
            old(self).uniform@ ==> old(self).seen@ == Some(g),
            !endpoints_open(*old(self), g),
        ensures
            final(self).wf(),
            searched(*old(self), *final(self), g),
            ids_same(*final(self), *old(self)),
            final(self).seen@ == old(self).seen@,
            final(self).uniform@ == old(self).uniform@,
    {
        let ghost s0 = *self;
        self.status = SolverStatus::NoPath;
        self.open_set = Vec::new();
        self.open_heap = Vec::new();
        proof {
            let q0 = s0.closed@ + s0.open_set@;
            let q1 = self.closed@ + self.open_set@;
            assert(q1 =~= s0.closed@);
            assert forall|n: Coord| #[trigger] q1.contains(n) implies q0.contains(n) by {
                let j = choose|j: int| 0 <= j < q1.len() && q1[j] == n;
                assert(q0[j] == n);
            }
            assert(self.frame_ok());
            assert(self.status_ok());
            assert(self.seen_ok());
            assert(self.bfs_ok());
            assert(self.astar_ok());
            assert(self.view_paths() =~= Seq::<Seq<Coord>>::empty());
            assert(self.view_open() =~= Seq::<Coord>::empty());
            assert(self.view_path() =~= Seq::<Coord>::empty());
        }
    }

    /// One step of A*, BFS or DFS on a running search whose maze is recorded.
    fn step_search(&mut self, maze: &MazeGrid)
        requires
            old(self).wf(),
            old(self).status == SolverStatus::Running,
            old(self).algorithm != Algorithm::KShortest,
            old(self).seen@ is Some,
            old(self).uniform@ ==> old(self).seen@ == Some(cell::grid_view(maze)),
            cell::is_rectangular(cell::grid_view(maze)),
        ensures
            final(self).wf(),
            searched(*old(self), *final(self), cell::grid_view(maze)),
            ids_same(*final(self), *old(self)),
            final(self).seen@ == old(self).seen@,
            final(self).uniform@ == old(self).uniform@,
    {
        let ghost s0 = *self;
        let ghost g = cell::grid_view(maze);
        if !(cell_is_open(maze, self.start) && cell_is_open(maze, self.goal)) {
            self.finish_blocked(Ghost(g));
            return;
        }
        let popped = self.pop_open();
        match popped {
            None => {
                self.finish_no_path(Ghost(s0), Ghost(g));
            },
            Some(c) => {
                if c.0 == self.goal.0 && c.1 == self.goal.1 {
                    self.finish_found(c, Ghost(s0), Ghost(g));
                } else {
                    self.expand_cell(c, maze, Ghost(s0));
                }
            },
        }
    }

    /// Advance the search by one step on `maze`: expand exactly one cell
    /// (K-Shortest solves everything at once). A start or goal on a wall (or
    /// off the maze) finishes the search with no path. Does nothing once
    /// finished.
    pub fn step(&mut self, maze: &MazeGrid)
        requires
            old(self).wf(),
            cell::is_rectangular(cell::grid_view(maze)),
        ensures
            final(self).wf(),
            stepped(*old(self), *final(self), cell::grid_view(maze)),
    {
        if self.finished() {
            return;
        }
        let ghost g = cell::grid_view(maze);
        let ghost first = if self.seen@ is None {
            Some(g)
        } else {
            self.seen@
        };
        proof {
            self.uniform@ = self.uniform@ && first == Some(g);
            self.seen@ = first;
        }
        let ghost s0 = *self;
        proof {
            assert forall|m: Seq<Seq<Cell>>| #[trigger] s0.only_saw(m) == (old(self).only_saw(m) && m == g) by {}
        }
        if let Algorithm::KShortest = self.algorithm {
            // The one-shot search leaves nothing on the frontier.
            self.open_set = Vec::new();
            self.run_k_shortest(maze);
            proof {
                assert(self.open_set@ =~= Seq::<Coord>::empty());
                assert(self.wf());
                assert(ran_k_shortest(*old(self), *self, g));
            }
            return;
        }
        proof {
            assert(s0.frame_ok());
            assert(s0.status_ok());
            assert(s0.seen_ok()) by {
                if s0.uniform@ {
                    if old(self).seen@ is None {
                        assert(s0.came_from.view() == Map::<Coord, Coord>::empty());
                        assert(s0.closed@.len() == 0);
                    }
                }
            }
        }
        self.step_search(maze);
        proof {
            assert forall|m: Seq<Seq<Cell>>| #[trigger] self.only_saw(m) == s0.only_saw(m) by {}
            assert(s0.view_algorithm() == old(self).view_algorithm());
            assert(s0.view_heuristic() == old(self).view_heuristic());
            assert(s0.view_goal() == old(self).view_goal());
            assert(s0.view_start() == old(self).view_start());
            assert(s0.view_open() == old(self).view_open());
            assert(s0.view_closed() == old(self).view_closed());
            assert(s0.view_links() == old(self).view_links());
            assert(s0.view_costs() == old(self).view_costs());
            assert(s0.view_path() == old(self).view_path());
            assert(s0.view_paths() == old(self).view_paths());
            assert(searched(*old(self), *self, g));
        }
    }
}

/// Every path that a solver reports lies in the maze it was stepped on: it
/// starts at the start, ends at the goal, and each move goes to an adjacent
/// open cell.
pub proof fn lemma_found_path_is_walk(s: Solver, g: Seq<Seq<Cell>>)
    requires
        s.wf(),
        s.only_saw(g),
        s.view_status() == SolverStatus::Found,
    ensures
        walks::walk_from(g, s.view_path(), s.view_start()),
        s.view_path().last() == s.view_goal(),
{
    if s.algorithm == Algorithm::KShortest {
        let m = s.seen@->0;
        let p = s.view_paths()[0];
        assert(walks::is_route(m, p, s.start, s.goal));
        assert(p == s.path@);
        assert forall|i: int| 0 <= i < p.len() - 1 implies #[trigger] walks::step_ok(
            g,
            Seq::empty(),
            Seq::empty(),
            p[i],
            p[i + 1],
        ) by {
            assert(walks::step_ok(m, Seq::empty(), Seq::empty(), p[i], p[i + 1]));
        }
    } else {
        let cf = s.came_from.view();
        let p = s.path@;
        assert forall|i: int| 0 <= i < p.len() - 1 implies #[trigger] walks::step_ok(
            g,
            Seq::empty(),
            Seq::empty(),
            p[i],
            p[i + 1],
        ) by {
            assert(cf.contains_key(p[i + 1]));
        }
    }
}

/// BFS, and A* with any of the heuristics, find a shortest path: no walk
/// from the start to the goal in the maze they were stepped on has fewer
/// cells than the path they report.
pub proof fn lemma_found_path_is_shortest(s: Solver, g: Seq<Seq<Cell>>)
    requires
        s.wf(),
        s.only_saw(g),
        s.view_algorithm() == Algorithm::BFS || s.view_algorithm() == Algorithm::AStar,
        s.view_status() == SolverStatus::Found,
    ensures
        shortest_route(g, s.view_path(), s.view_start(), s.view_goal()),
{
    assert(s.seen@ is Some);
    assert(s.seen@->0 == g);
    if s.algorithm == Algorithm::BFS {
        assert(s.bfs_ok());
    } else {
        assert(s.astar_ok());
    }
}

/// Two solvers among BFS and A* (any heuristics) that found a path between
/// the same endpoints of the same maze report paths of equal length.
pub proof fn lemma_shortest_paths_agree(s: Solver, t: Solver, g: Seq<Seq<Cell>>)
    requires
        s.wf(),
        t.wf(),
        s.only_saw(g),
        t.only_saw(g),
        s.view_algorithm() == Algorithm::BFS || s.view_algorithm() == Algorithm::AStar,
        t.view_algorithm() == Algorithm::BFS || t.view_algorithm() == Algorithm::AStar,
        s.view_status() == SolverStatus::Found,
        t.view_status() == SolverStatus::Found,
        s.view_start() == t.view_start(),
        s.view_goal() == t.view_goal(),
    ensures
        s.view_path().len() == t.view_path().len(),
{
    lemma_found_path_is_shortest(s, g);
    lemma_found_path_is_shortest(t, g);
}

/// A search on one maze expands each cell at most once and, apart from the
/// start, only open cells of the maze; so it expands at most one cell more
/// than the maze has, and since every step that does not finish the search
/// expands a cell, it finishes within that many steps.
pub proof fn lemma_expansions_bounded(s: Solver, g: Seq<Seq<Cell>>)
    requires
        s.wf(),
        s.only_saw(g),
        s.view_algorithm() != Algorithm::KShortest,
    ensures
        s.view_closed().len() <= cell::grid_width(g) * g.len() + 1,
{
    let closed = s.closed@;
    if closed.len() > 0 {
        assert(s.seen@ is Some);
        assert(s.seen@->0 == g);
        let rest = closed.drop_first();
        let cf = s.came_from.view();
        assert forall|i: int| 0 <= i < rest.len() implies (#[trigger] rest[i]).0 < cell::grid_width(g) && rest[i].1
            < g.len() by {
            let x = rest[i];
            assert(x == closed[i + 1]);
            assert(closed[0] == s.start);
            assert(x != s.start);
            assert(closed.contains(x));
            assert(cf.contains_key(x));
            assert(walks::step_ok(g, Seq::empty(), Seq::empty(), cf[x], x));
        }
        assert(rest.no_duplicates());
        walks::lemma_distinct_cells_bound(rest, cell::grid_width(g), g.len());
    }
}

/// Once every legal move out of the expanded cells stays among them, every
/// walk from the start (an expanded cell) ends on an expanded cell.
proof fn lemma_walks_stay_closed(g: Seq<Seq<Cell>>, closed: Seq<Coord>, start: Coord, p: Seq<Coord>)
    requires
        closed.contains(start),
        forall|i: int, n: Coord|
            0 <= i < closed.len() && #[trigger] walks::step_ok(g, Seq::empty(), Seq::empty(), closed[i], n)
                ==> closed.contains(n),
        walks::walk_from(g, p, start),
    ensures
        closed.contains(p.last()),
    decreases p.len(),
{
    if p.len() > 1 {
        let q = p.drop_last();
        assert forall|i: int| 0 <= i < q.len() - 1 implies #[trigger] walks::step_ok(
            g,
            Seq::empty(),
            Seq::empty(),
            q[i],
            q[i + 1],
        ) by {
            assert(walks::step_ok(g, Seq::empty(), Seq::empty(), p[i], p[i + 1]));
        }
        lemma_walks_stay_closed(g, closed, start, q);
        let j = choose|j: int| 0 <= j < closed.len() && closed[j] == q.last();
        let i = p.len() - 2;
        assert(walks::step_ok(g, Seq::empty(), Seq::empty(), p[i], p[i + 1]));
        assert(walks::step_ok(g, Seq::empty(), Seq::empty(), closed[j], p.last()));
    }
}

/// A solver that reports no path is right: in the maze it was stepped on,
/// no walk leads from the start to the goal (for K-Shortest: none from an
/// open start cell).
pub proof fn lemma_no_path_is_sound(s: Solver, g: Seq<Seq<Cell>>)
    requires
        s.wf(),
        s.only_saw(g),
        s.view_status() == SolverStatus::NoPath,
    ensures
        s.view_algorithm() != Algorithm::KShortest ==> !walks::connected(g, s.view_start(), s.view_goal()),
        s.view_algorithm() == Algorithm::KShortest ==> !walks::reachable(
            g,
            Seq::empty(),
            Seq::empty(),
            s.view_start(),
            s.view_goal(),
        ),
{
    if s.algorithm != Algorithm::KShortest {
        let closed = s.closed@;
        assert(s.seen@->0 == g);
        assert(s.seen_ok());
        if walks::is_open(g, s.start) && walks::is_open(g, s.goal) {
            assert forall|i: int, n: Coord|
                0 <= i < closed.len() && #[trigger] walks::step_ok(g, Seq::empty(), Seq::empty(), closed[i], n)
                    implies closed.contains(n) by {
                assert(!s.open_set@.contains(n));
            }
            assert forall|p: Seq<Coord>| #[trigger] walks::walk_from(g, p, s.start) implies p.last() != s.goal by {
                lemma_walks_stay_closed(g, closed, s.start, p);
            }
        } else {
            assert forall|p: Seq<Coord>| #[trigger] walks::walk_from(g, p, s.start) implies p.last() != s.goal by {
                if p.len() > 1 {
                    let i = p.len() - 2;
                    assert(walks::step_ok(g, Seq::empty(), Seq::empty(), p[i], p[i + 1]));
                }
            }
        }
    }
}

/// `s` is a solver just built for these settings, before any step.
pub open spec fn is_fresh(s: Solver, alg: Algorithm, h: Heuristic, start: Coord, goal: Coord, k: nat) -> bool {
    &&& s.wf()
    &&& s.view_algorithm() == alg
    &&& s.view_heuristic() == h
    &&& s.view_start() == start
    &&& s.view_goal() == goal
    &&& s.view_k() == k
    &&& s.view_status() == SolverStatus::Running
    &&& s.view_path().len() == 0
    &&& s.view_paths().len() == 0
    &&& s.view_open() == seq![start]
    &&& s.view_closed().len() == 0
    &&& s.view_links() == Map::<Coord, Coord>::empty()
    &&& s.view_costs() == map![start => 0u64]
    &&& forall|g: Seq<Seq<Cell>>| #[trigger] s.only_saw(g)
}

/// Along a path that follows the links back to the start, the `i`-th cell
/// lies at depth `i`.
proof fn lemma_depth_at(cf: Map<Coord, Coord>, d: Map<Coord, int>, p: Seq<Coord>, start: Coord, goal: Coord, i: int)
    requires
        traces(cf, p, start, goal),
        d.contains_key(start),
        d[start] == 0,
        forall|x: Coord| #[trigger] cf.contains_key(x) ==> d.contains_key(x) && d.contains_key(cf[x]) && d[x] == d[cf[x]] + 1,
        0 <= i < p.len(),
    ensures
        d.contains_key(p[i]),
        d[p[i]] == i,
    decreases i,
{
    if i > 0 {
        lemma_depth_at(cf, d, p, start, goal, i - 1);
        assert(cf.contains_key(p[(i - 1) + 1]));
    }
}

/// Breadth-first layers: once every cell up to queue position `head` has
/// been expanded, the bound "every walk of at most the head's depth ends on
/// a queued cell no deeper than its length" moves on to position `head + 1`.
proof fn lemma_walk_layers(g: Seq<Seq<Cell>>, start: Coord, q: Seq<Coord>, dm: Map<Coord, int>, head: int)
    requires
        0 <= head,
        head + 1 < q.len(),
        forall|c: Coord| #[trigger] q.contains(c) ==> dm.contains_key(c) && dm[c] >= 0,
        forall|i: int, j: int| 0 <= i <= j < q.len() ==> dm[q[i]] <= dm[q[j]],
        dm[q.last()] <= dm[q[head]] + 1,
        forall|k: int, n: Coord|
            0 <= k <= head && #[trigger] walks::step_ok(g, Seq::empty(), Seq::empty(), q[k], n) ==> q.contains(n)
                && dm[n] <= dm[q[k]] + 1,
        forall|p: Seq<Coord>|
            #[trigger] walks::walk_from(g, p, start) && p.len() - 1 <= dm[q[head]] ==> q.contains(p.last())
                && dm[p.last()] <= p.len() - 1,
    ensures
        forall|p: Seq<Coord>|
            #[trigger] walks::walk_from(g, p, start) && p.len() - 1 <= dm[q[head + 1]] ==> q.contains(p.last())
                && dm[p.last()] <= p.len() - 1,
{
    let d0 = dm[q[head]];
    assert(q.contains(q[head]));
    assert(q.contains(q[q.len() - 1]));
    assert(dm[q[head + 1]] <= d0 + 1) by {
        assert(dm[q[head + 1]] <= dm[q[q.len() - 1]]);
    }
    assert forall|p: Seq<Coord>|
        #[trigger] walks::walk_from(g, p, start) && p.len() - 1 <= dm[q[head + 1]] implies q.contains(p.last())
            && dm[p.last()] <= p.len() - 1 by {
        if p.len() - 1 > d0 {
            let pre = p.drop_last();
            assert forall|i: int| 0 <= i < pre.len() - 1 implies #[trigger] walks::step_ok(
                g,
                Seq::empty(),
                Seq::empty(),
                pre[i],
                pre[i + 1],
            ) by {
                assert(walks::step_ok(g, Seq::empty(), Seq::empty(), p[i], p[i + 1]));
            }
            assert(walks::walk_from(g, pre, start));
            let y = pre.last();
            assert(q.contains(y) && dm[y] <= d0);
            let j = choose|j: int| 0 <= j < q.len() && q[j] == y;
            if j > head {
                assert(dm[q[head + 1]] <= dm[q[j]]);
            }
            let i = p.len() - 2;
            assert(walks::step_ok(g, Seq::empty(), Seq::empty(), p[i], p[i + 1]));
            assert(walks::step_ok(g, Seq::empty(), Seq::empty(), q[j], p.last()));
        }
    }
}

/// Expanding the head `c` of a consistent BFS queue keeps the breadth-first
/// facts.
proof fn lemma_expand_bfs(s0: Solver, s1: Solver, g: Seq<Seq<Cell>>, c: Coord)
    requires
        s0.wf(),
        s0.status == SolverStatus::Running,
        s0.algorithm == Algorithm::BFS,
        s0.uniform@ ==> s0.seen@ == Some(g),
        s0.open_set@.len() > 0,
        c == s0.open_set@[0],
        c != s0.goal,
        core_same(s1, s0),
        s1.closed@ == s0.closed@.push(c),
        s1.open_set@ == without(s0.open_set@, c) + fresh(
            g,
            c,
            without(s0.open_set@, c),
            s0.closed@.push(c),
        ),
        s1.came_from.view() == assign(
            s0.came_from.view(),
            fresh(g, c, without(s0.open_set@, c), s0.closed@.push(c)),
            c,
        ),
        s1.depth@ == assign(
            s0.depth@,
            fresh(g, c, without(s0.open_set@, c), s0.closed@.push(c)),
            s0.depth@[c] + 1,
        ),
    ensures
        s1.bfs_ok(),
{
    if s1.uniform@ && s1.seen@ is Some {
        let o0 = s0.open_set@;
        let c0 = s0.closed@;
        let q0 = c0 + o0;
        let o1 = without(o0, c);
        let c1 = c0.push(c);
        let f = fresh(g, c, o1, c1);
        let q1 = s1.closed@ + s1.open_set@;
        let d0 = s0.depth@;
        let d1 = s1.depth@;
        let l0 = s0.came_from.view();
        let l1 = s1.came_from.view();
        let dc = d0[c];
        assert(s0.seen@ == Some(g));
        assert(s0.bfs_ok());
        assert(s0.uniform@);
        assert(s0.status == SolverStatus::Running);
        assert(s0.seen@->0 == g);
        assert(forall|k: int, n: Coord|
            0 <= k < c0.len() && #[trigger] walks::step_ok(g, Seq::empty(), Seq::empty(), c0[k], n) ==> q0.contains(n)
                && d0[n] <= d0[c0[k]] + 1);
        lemma_without(o0, 0);
        assert(o1 == o0.drop_first());
        assert(q1 =~= q0 + f);
        lemma_nbrs(g, c);
        lemma_select(nbrs(g, c), fresh_keep(g, o1, c1));
        lemma_select(o0, other_than(c));
        assert(q0[c0.len() as int] == c);
        assert(q0.contains(c));
        assert forall|n: Coord| #[trigger] q1.contains(n) <==> q0.contains(n) || f.contains(n) by {
            lemma_concat_contains(q0, f, n);
        }
        assert forall|n: Coord| #[trigger] q0.contains(n) <==> c0.contains(n) || o0.contains(n) by {
            lemma_concat_contains(c0, o0, n);
        }
        assert forall|n: Coord| #[trigger] f.contains(n) implies !q0.contains(n) by {
            if c0.contains(n) {
                let j = choose|j: int| 0 <= j < c0.len() && c0[j] == n;
                assert(c1[j] == n);
            }
            assert(c1[c0.len() as int] == c);
        }
        assert forall|n: Coord| #[trigger] d1.contains_key(n) <==> d0.contains_key(n) || f.contains(n) by {}
        assert forall|n: Coord| d1.contains_key(n) && !f.contains(n) implies #[trigger] d1[n] == d0[n] by {}
        assert forall|n: Coord| #[trigger] f.contains(n) implies d1[n] == dc + 1 by {}
        assert(d1[c] == dc);
        // The old queue's depths are at most one layer past the head.
        assert forall|n: Coord| #[trigger] q0.contains(n) implies d0[n] <= dc + 1 by {
            let j = choose|j: int| 0 <= j < q0.len() && q0[j] == n;
            assert(d0[q0[j]] <= d0[q0[q0.len() - 1]]);
        }
        assert forall|n: Coord| #[trigger] q0.contains(n) implies d0.contains_key(n) && d0[n] >= 0 by {}
        assert forall|i: int, j: int| 0 <= i <= j < q1.len() implies d1[q1[i]] <= d1[q1[j]] by {
            if j < q0.len() {
                assert(q1[i] == q0[i] && q1[j] == q0[j]);
                assert(q0.contains(q0[i]) && q0.contains(q0[j]));
            } else if i < q0.len() {
                assert(q1[i] == q0[i]);
                assert(q0.contains(q0[i]));
                assert(f.contains(f[j - q0.len()]));
            } else {
                assert(f.contains(f[i - q0.len()]));
                assert(f.contains(f[j - q0.len()]));
            }
        }
        assert(q1[c0.len() as int] == c);
        assert forall|k: int, n: Coord|
            0 <= k <= c0.len() && #[trigger] walks::step_ok(g, Seq::empty(), Seq::empty(), q1[k], n) implies q1.contains(
            n,
        ) && d1[n] <= d1[q1[k]] + 1 by {
            if k < c0.len() {
                assert(q1[k] == c0[k]);
                assert(walks::step_ok(g, Seq::empty(), Seq::empty(), c0[k], n));
                assert(q0.contains(n) && d0[n] <= d0[c0[k]] + 1);
                assert(q0.contains(c0[k])) by {
                    assert(q0[k] == c0[k]);
                }
            } else {
                assert(nbrs(g, c).contains(n));
                if !q0.contains(n) {
                    assert(!c1.contains(n)) by {
                        if c1.contains(n) {
                            let j = choose|j: int| 0 <= j < c1.len() && c1[j] == n;
                            if j < c0.len() {
                                assert(c0[j] == n);
                            }
                        }
                    }
                    assert(!o1.contains(n));
                    assert(f.contains(n));
                }
            }
        }
        assert forall|k: int, n: Coord|
            0 <= k < s1.closed@.len() && #[trigger] walks::step_ok(g, Seq::empty(), Seq::empty(), s1.closed@[k], n)
                implies q1.contains(n) && d1[n] <= d1[s1.closed@[k]] + 1 by {
            assert(s1.closed@[k] == q1[k]);
        }
        if s1.open_set@.len() > 0 {
            assert(s1.open_set@[0] == q1[c1.len() as int]);
            assert(q1.contains(q1[q1.len() - 1]));
            assert(d1[q1.last()] <= dc + 1);
            assert(d1[q1[c0.len() as int]] <= d1[q1[c1.len() as int]]);
            assert forall|p: Seq<Coord>|
                #[trigger] walks::walk_from(g, p, s0.start) && p.len() - 1 <= d1[q1[c0.len() as int]] implies q1.contains(
                p.last(),
            ) && d1[p.last()] <= p.len() - 1 by {
                assert(q0.contains(p.last()));
            }
            assert forall|n: Coord| #[trigger] q1.contains(n) implies d1.contains_key(n) && d1[n] >= 0 by {}
            lemma_walk_layers(g, s0.start, q1, d1, c0.len() as int);
        }
        assert forall|x: Coord| #[trigger] l1.contains_key(x) implies d1.contains_key(x) && d1.contains_key(l1[x])
            && d1[x] == d1[l1[x]] + 1 by {
            if f.contains(x) {
                assert(l1[x] == c);
            } else {
                assert(l0.contains_key(x));
                assert(c0.contains(l0[x]));
                assert(q0.contains(l0[x]));
                assert(!f.contains(l0[x]));
            }
        }
        assert(!f.contains(s0.start)) by {
            if c0.len() > 0 {
                assert(c0[0] == s0.start);
                assert(q0[0] == s0.start);
            } else {
                assert(o0 == seq![s0.start]);
                assert(q0[0] == s0.start);
            }
        }
    }
}

/// Along a chain of adjacent cells, the estimate from the `k`-th cell is at
/// most one move's cost per remaining move plus the estimate from the last.
proof fn lemma_consistent_along(h: Heuristic, w: Seq<Coord>, goal: Coord, k: int)
    requires
        0 <= k < w.len(),
        forall|i: int| 0 <= i < w.len() - 1 ==> #[trigger] walks::adjacent(w[i], w[i + 1]),
    ensures
        spec_estimate(h, w[k], goal) <= COST_SCALE * (w.len() - 1 - k) + spec_estimate(h, w.last(), goal),
    decreases w.len() - k,
{
    if k < w.len() - 1 {
        assert(walks::adjacent(w[k], w[k + 1]));
        crate::solver::heuristic::lemma_estimate_consistent(h, w[k], w[k + 1], goal);
        lemma_consistent_along(h, w, goal, k + 1);
    }
}

/// A walk that starts inside `closed` and ends outside it leaves it at some
/// move: a cell of `closed` followed by one outside.
proof fn first_exit(w: Seq<Coord>, closed: Seq<Coord>, i: int) -> (k: int)
    requires
        0 <= i < w.len(),
        closed.contains(w[i]),
        !closed.contains(w.last()),
    ensures
        i < k < w.len(),
        closed.contains(w[k - 1]),
        !closed.contains(w[k]),
    decreases w.len() - i,
{
    if !closed.contains(w[i + 1]) {
        i + 1
    } else {
        first_exit(w, closed, i + 1)
    }
}

/// The cell A* takes off its frontier cannot be reached more cheaply than
/// its cost: any cheaper walk would leave the expanded cells through a
/// frontier cell of smaller priority (the estimates being consistent).
proof fn lemma_astar_pop(s0: Solver, g: Seq<Seq<Cell>>, c: Coord)
    requires
        s0.wf(),
        s0.algorithm == Algorithm::AStar,
        s0.status == SolverStatus::Running,
        s0.uniform@,
        s0.seen@ == Some(g),
        picks(Algorithm::AStar, s0.heuristic, s0.goal, s0.open_set@, s0.g_score.view(), c),
    ensures
        forall|w: Seq<Coord>|
            #[trigger] walks::walk_from(g, w, s0.start) && w.last() == c ==> s0.g_score.view()[c] <= w.len() - 1,
{
    let gm = s0.g_score.view();
    let closed = s0.closed@;
    let open = s0.open_set@;
    let hr = s0.heuristic;
    let goal = s0.goal;
    assert(s0.astar_ok());
    assert(s0.seen@->0 == g);
    assert forall|w: Seq<Coord>| #[trigger] walks::walk_from(g, w, s0.start) && w.last() == c implies gm[c] <= w.len()
        - 1 by {
        if gm[c] > w.len() - 1 {
            assert(!closed.contains(c));
            if closed.len() == 0 {
                assert(open == seq![s0.start]);
                assert(open[0] == c);
            }
            assert(closed[0] == s0.start);
            assert(closed.contains(w[0]));
            let k = first_exit(w, closed, 0);
            let x = w[k - 1];
            let y = w[k];
            let wp = w.take(k);
            assert forall|i: int| 0 <= i < wp.len() - 1 implies #[trigger] walks::step_ok(
                g,
                Seq::empty(),
                Seq::empty(),
                wp[i],
                wp[i + 1],
            ) by {
                assert(walks::step_ok(g, Seq::empty(), Seq::empty(), w[i], w[i + 1]));
            }
            assert(walks::walk_from(g, wp, s0.start));
            assert(wp.last() == x);
            let ix = choose|ix: int| 0 <= ix < closed.len() && closed[ix] == x;
            assert(gm[closed[ix]] <= wp.len() - 1);
            assert(walks::step_ok(g, Seq::empty(), Seq::empty(), w[k - 1], w[(k - 1) + 1]));
            assert(walks::step_ok(g, Seq::empty(), Seq::empty(), closed[ix], y));
            assert(gm.contains_key(y) && gm[y] <= gm[x] + 1);
            assert(open.contains(y));
            assert(priority(hr, goal, gm, c) <= priority(hr, goal, gm, y));
            assert forall|i: int| 0 <= i < w.len() - 1 implies #[trigger] walks::adjacent(w[i], w[i + 1]) by {
                assert(walks::step_ok(g, Seq::empty(), Seq::empty(), w[i], w[i + 1]));
            }
            lemma_consistent_along(hr, w, goal, k);
        }
    }
}

/// Expanding the A* cell `c` keeps the A* facts.
proof fn lemma_expand_astar(s0: Solver, s1: Solver, g: Seq<Seq<Cell>>, c: Coord)
    requires
        s0.wf(),
        s0.status == SolverStatus::Running,
        s0.algorithm == Algorithm::AStar,
        s0.uniform@ ==> s0.seen@ == Some(g),
        s0.seen@ is Some,
        picks(Algorithm::AStar, s0.heuristic, s0.goal, s0.open_set@, s0.g_score.view(), c),
        c != s0.goal,
        core_same(s1, s0),
        s1.closed@ == s0.closed@.push(c),
        s1.closed@.len() <= usize::MAX,
        s1.open_set@ == without(s0.open_set@, c) + fresh(
            g,
            c,
            without(s0.open_set@, c),
            s0.closed@.push(c),
        ),
        s1.came_from.view() == assign(
            s0.came_from.view(),
            improved(g, c, s0.closed@.push(c), s0.g_score.view()),
            c,
        ),
        s1.g_score.view() == assign(
            s0.g_score.view(),
            improved(g, c, s0.closed@.push(c), s0.g_score.view()),
            sat_inc(s0.g_score.view()[c]),
        ),
    ensures
        s1.astar_ok(),
{
    if s1.uniform@ {
        let o0 = s0.open_set@;
        let c0 = s0.closed@;
        let o1 = without(o0, c);
        let c1 = c0.push(c);
        let f = fresh(g, c, o1, c1);
        let b = improved(g, c, c1, s0.g_score.view());
        let g0 = s0.g_score.view();
        let g1 = s1.g_score.view();
        let l0 = s0.came_from.view();
        let l1 = s1.came_from.view();
        let o2 = s1.open_set@;
        assert(s0.seen@ == Some(g));
        assert(s0.astar_ok());
        assert(s0.seen@->0 == g);
        lemma_astar_pop(s0, g, c);
        lemma_nbrs(g, c);
        lemma_select(nbrs(g, c), fresh_keep(g, o1, c1));
        lemma_select(nbrs(g, c), improved_keep(g, c, c1, g0));
        lemma_select(o0, other_than(c));
        assert(o0.contains(c));
        assert(g0[c] <= c0.len());
        let t = sat_inc(g0[c]);
        assert(t == g0[c] + 1);
        assert(!c0.contains(c));
        assert forall|n: Coord| #[trigger] c1.contains(n) <==> c0.contains(n) || n == c by {
            if c1.contains(n) && n != c {
                let j = choose|j: int| 0 <= j < c1.len() && c1[j] == n;
                assert(c0[j] == n);
            }
            if c0.contains(n) {
                let j = choose|j: int| 0 <= j < c0.len() && c0[j] == n;
                assert(c1[j] == n);
            }
            assert(c1[c0.len() as int] == c);
        }
        assert forall|n: Coord| #[trigger] o2.contains(n) <==> o1.contains(n) || f.contains(n) by {
            lemma_concat_contains(o1, f, n);
        }
        assert forall|n: Coord| #[trigger] f.contains(n) implies b.contains(n) by {
            assert(!g0.contains_key(n));
        }
        assert forall|n: Coord| #[trigger] g1.contains_key(n) <==> g0.contains_key(n) || b.contains(n) by {}
        assert forall|n: Coord| g1.contains_key(n) && !b.contains(n) implies #[trigger] g1[n] == g0[n] by {}
        assert forall|n: Coord| #[trigger] b.contains(n) implies g1[n] == t && !c1.contains(n) by {}
        assert forall|n: Coord| #[trigger] l1.contains_key(n) <==> l0.contains_key(n) || b.contains(n) by {}
        assert forall|n: Coord| l1.contains_key(n) && !b.contains(n) implies #[trigger] l1[n] == l0[n] by {}
        assert forall|x: Coord| #[trigger] l1.contains_key(x) implies g1.contains_key(x) && g1.contains_key(l1[x])
            && g1[x] == g1[l1[x]] + 1 by {
            if b.contains(x) {
                assert(l1[x] == c);
            } else {
                assert(l0.contains_key(x));
                assert(c0.contains(l0[x]));
                assert(c1.contains(l0[x]));
            }
        }
        assert forall|i: int| 0 <= i < c1.len() implies g1[#[trigger] c1[i]] <= i by {
            if i < c0.len() {
                assert(c1[i] == c0[i]);
                assert(c1.contains(c1[i]));
                assert(g0[c0[i]] <= i);
            }
        }
        assert forall|n: Coord| #[trigger] o2.contains(n) implies g1[n] <= c1.len() by {
            if !b.contains(n) {
                assert(o1.contains(n));
                assert(o0.contains(n));
            }
        }
        assert forall|i: int, w: Seq<Coord>|
            0 <= i < c1.len() && #[trigger] walks::walk_from(g, w, s1.start) && w.last() == #[trigger] c1[i] implies g1[c1[i]]
            <= w.len() - 1 by {
            assert(c1.contains(c1[i]));
            if i < c0.len() {
                assert(c1[i] == c0[i]);
            }
        }
        assert forall|i: int, n: Coord|
            0 <= i < c1.len() && #[trigger] walks::step_ok(g, Seq::empty(), Seq::empty(), c1[i], n) && !c1.contains(n)
                implies g1.contains_key(n) && g1[n] <= g1[c1[i]] + 1 by {
            assert(c1.contains(c1[i]));
            if i < c0.len() {
                assert(c1[i] == c0[i]);
                assert(walks::step_ok(g, Seq::empty(), Seq::empty(), c0[i], n));
                assert(!c0.contains(n));
                assert(g0.contains_key(n) && g0[n] <= g0[c0[i]] + 1);
            } else {
                assert(c1[i] == c);
                assert(nbrs(g, c).contains(n));
            }
        }
    }
}

/// What [`k_paths::k_shortest_paths`] promises of its result `r` on grid `g`.
pub open spec fn k_paths_facts(g: Seq<Seq<Cell>>, r: Seq<Seq<Coord>>, start: Coord, goal: Coord) -> bool {
    &&& r.len() > 0 ==> walks::is_shortest(g, Seq::empty(), Seq::empty(), r[0], start, goal)
    &&& forall|i: int| 0 <= i < r.len() ==> walks::is_route(g, #[trigger] r[i], start, goal)
    &&& forall|i: int, j: int| 0 <= i < j < r.len() ==> r[i] != r[j]
    &&& forall|i: int, j: int| 0 <= i < j < r.len() ==> r[i].len() <= r[j].len()
    &&& forall|p: Seq<Coord>|
        #[trigger] walks::is_route(g, p, start, goal) && !r.contains(p) && r.len() > 0 ==> r[r.len() - 1].len() <= p.len()
}

} // verus!
