//! Walks on a 4-connected grid: the model that the search algorithms are
//! specified against.

use vstd::prelude::*;

use crate::mazes::cell::{self, Cell};

verus! {

/// `(x, y)` grid coordinate.
pub type Coord = (usize, usize);

/// `c` lies inside the grid (width read from the first row).
pub open spec fn in_bounds(g: Seq<Seq<Cell>>, c: Coord) -> bool {
    c.1 < g.len() && c.0 < cell::grid_width(g)
}

/// `c` lies inside the grid on a cell that is not a wall.
pub open spec fn is_open(g: Seq<Seq<Cell>>, c: Coord) -> bool {
    in_bounds(g, c) && g[c.1 as int][c.0 as int] != Cell::Wall
}

/// `a` and `b` differ by one in exactly one coordinate.
pub open spec fn adjacent(a: Coord, b: Coord) -> bool {
    ||| a.1 == b.1 && (a.0 + 1 == b.0 || b.0 + 1 == a.0)
    ||| a.0 == b.0 && (a.1 + 1 == b.1 || b.1 + 1 == a.1)
}

/// A move from `a` to `b` is allowed: `b` is an adjacent open cell, not in
/// `bn`, and the directed edge `(a, b)` is not in `be`.
pub open spec fn step_ok(
    g: Seq<Seq<Cell>>,
    bn: Seq<Coord>,
    be: Seq<(Coord, Coord)>,
    a: Coord,
    b: Coord,
) -> bool {
    adjacent(a, b) && is_open(g, b) && !bn.contains(b) && !be.contains((a, b))
}

/// `p` is a walk from the open cell `start` made of allowed moves.
pub open spec fn is_walk(
    g: Seq<Seq<Cell>>,
    bn: Seq<Coord>,
    be: Seq<(Coord, Coord)>,
    p: Seq<Coord>,
    start: Coord,
) -> bool {
    &&& p.len() >= 1
    &&& p[0] == start
    &&& is_open(g, start)
    &&& forall|i: int| 0 <= i < p.len() - 1 ==> #[trigger] step_ok(g, bn, be, p[i], p[i + 1])
}

/// `p` is a walk from `start` that ends at `goal`.
pub open spec fn reaches(
    g: Seq<Seq<Cell>>,
    bn: Seq<Coord>,
    be: Seq<(Coord, Coord)>,
    p: Seq<Coord>,
    start: Coord,
    goal: Coord,
) -> bool {
    is_walk(g, bn, be, p, start) && p.last() == goal
}

/// `p` reaches `goal` and no walk from `start` to `goal` has fewer cells.
pub open spec fn is_shortest(
    g: Seq<Seq<Cell>>,
    bn: Seq<Coord>,
    be: Seq<(Coord, Coord)>,
    p: Seq<Coord>,
    start: Coord,
    goal: Coord,
) -> bool {
    &&& reaches(g, bn, be, p, start, goal)
    &&& forall|q: Seq<Coord>| #[trigger] reaches(g, bn, be, q, start, goal) ==> p.len() <= q.len()
}

/// Some walk from `start` reaches `goal`.
pub open spec fn reachable(
    g: Seq<Seq<Cell>>,
    bn: Seq<Coord>,
    be: Seq<(Coord, Coord)>,
    start: Coord,
    goal: Coord,
) -> bool {
    exists|q: Seq<Coord>| #[trigger] reaches(g, bn, be, q, start, goal)
}

/// A shortest walk visits no cell twice: cutting out a loop would give a
/// shorter one.
pub proof fn lemma_shortest_is_simple(
    g: Seq<Seq<Cell>>,
    bn: Seq<Coord>,
    be: Seq<(Coord, Coord)>,
    p: Seq<Coord>,
    start: Coord,
    goal: Coord,
)
    requires
        is_shortest(g, bn, be, p, start, goal),
    ensures
        p.no_duplicates(),
{
    if !p.no_duplicates() {
        let (i, j) = choose|i: int, j: int| 0 <= i < p.len() && 0 <= j < p.len() && i != j && p[i] == p[j];
        let (a, b) = if i < j { (i, j) } else { (j, i) };
        let q = p.subrange(0, a + 1) + p.subrange(b + 1, p.len() as int);
        assert(q.len() < p.len());
        assert(q[0] == start);
        assert(q.last() == goal) by {
            if b + 1 < p.len() {
                assert(q.last() == p.last());
            } else {
                assert(q.last() == p[a]);
            }
        }
        assert forall|k: int| 0 <= k < q.len() - 1 implies #[trigger] step_ok(g, bn, be, q[k], q[k + 1]) by {
            if k < a {
                assert(q[k] == p[k] && q[k + 1] == p[k + 1]);
                assert(step_ok(g, bn, be, p[k], p[k + 1]));
            } else if k == a {
                assert(q[k] == p[b] && q[k + 1] == p[b + 1]);
                assert(step_ok(g, bn, be, p[b], p[b + 1]));
            } else {
                let m = k - a + b;
                assert(q[k] == p[m] && q[k + 1] == p[m + 1]);
                assert(step_ok(g, bn, be, p[m], p[m + 1]));
            }
        }
        assert(reaches(g, bn, be, q, start, goal));
    }
}

/// `p` starts at the open cell `start` and every move goes to an adjacent
/// open cell: a wall can be neither left nor entered.
pub open spec fn walk_from(g: Seq<Seq<Cell>>, p: Seq<Coord>, start: Coord) -> bool {
    &&& p.len() >= 1
    &&& p[0] == start
    &&& is_open(g, start)
    &&& forall|i: int| 0 <= i < p.len() - 1 ==> #[trigger] step_ok(g, Seq::empty(), Seq::empty(), p[i], p[i + 1])
}

/// Some walk from `start` ends at `goal` (so both are open cells).
pub open spec fn connected(g: Seq<Seq<Cell>>, start: Coord, goal: Coord) -> bool {
    exists|p: Seq<Coord>| #[trigger] walk_from(g, p, start) && p.last() == goal
}

/// `p` goes from `start` to `goal` by moves between adjacent cells.
pub open spec fn is_chain(p: Seq<Coord>, start: Coord, goal: Coord) -> bool {
    &&& p.len() >= 1
    &&& p[0] == start
    &&& p.last() == goal
    &&& forall|i: int| 0 <= i < p.len() - 1 ==> #[trigger] adjacent(p[i], p[i + 1])
}

/// A loopless route from `start` to `goal` with no cell or edge excluded.
pub open spec fn is_route(g: Seq<Seq<Cell>>, p: Seq<Coord>, start: Coord, goal: Coord) -> bool {
    reaches(g, Seq::empty(), Seq::empty(), p, start, goal) && p.no_duplicates()
}

/// A walk that avoids excluded cells and edges is also a walk when nothing is excluded.
pub proof fn lemma_walk_unrestricted(
    g: Seq<Seq<Cell>>,
    bn: Seq<Coord>,
    be: Seq<(Coord, Coord)>,
    p: Seq<Coord>,
    start: Coord,
)
    requires
        is_walk(g, bn, be, p, start),
    ensures
        is_walk(g, Seq::empty(), Seq::empty(), p, start),
{
    assert forall|i: int| 0 <= i < p.len() - 1 implies #[trigger] step_ok(
        g,
        Seq::empty(),
        Seq::empty(),
        p[i],
        p[i + 1],
    ) by {
        assert(step_ok(g, bn, be, p[i], p[i + 1]));
    }
}

/// A list of distinct cells inside a `w` x `h` grid has at most `w * h` entries.
pub proof fn lemma_distinct_cells_bound(q: Seq<Coord>, w: nat, h: nat)
    requires
        q.no_duplicates(),
        forall|i: int| 0 <= i < q.len() ==> (#[trigger] q[i]).0 < w && q[i].1 < h,
    ensures
        q.len() <= w * h,
{
    let f = |c: Coord| c.1 as int * w + c.0 as int;
    let m = q.map_values(f);
    assert forall|i: int, j: int| 0 <= i < m.len() && 0 <= j < m.len() && i != j implies m[i] != m[j] by {
        let a = q[i];
        let b = q[j];
        assert(a != b);
        if a.1 == b.1 {
            assert(a.0 != b.0);
        } else if a.1 < b.1 {
            assert(a.1 as int * w + a.0 < b.1 as int * w + b.0) by (nonlinear_arith)
                requires
                    a.1 < b.1,
                    a.0 < w,
                    0 <= b.0,
            ;
        } else {
            assert(b.1 as int * w + b.0 < a.1 as int * w + a.0) by (nonlinear_arith)
                requires
                    b.1 < a.1,
                    b.0 < w,
                    0 <= a.0,
            ;
        }
    }
    assert(m.no_duplicates());
    m.unique_seq_to_set();
    vstd::set_lib::lemma_int_range(0, (w * h) as int);
    assert forall|v: int| m.to_set().contains(v) implies vstd::set_lib::set_int_range(0, (w * h) as int).contains(v) by {
        let i = choose|i: int| 0 <= i < m.len() && m[i] == v;
        let c = q[i];
        assert(0 <= c.1 as int * w + c.0 < w * h) by (nonlinear_arith)
            requires
                c.0 < w,
                c.1 < h,
        ;
    }
    vstd::set_lib::lemma_len_subset(m.to_set(), vstd::set_lib::set_int_range(0, (w * h) as int));
}

/// The cells from `(x, y0)` to `(x, y1)`, one row at a time.
pub open spec fn column_run(x: usize, y0: usize, y1: usize) -> Seq<Coord> {
    if y0 <= y1 {
        Seq::new((y1 - y0 + 1) as nat, |i: int| (x, (y0 + i) as usize))
    } else {
        Seq::new((y0 - y1 + 1) as nat, |i: int| (x, (y0 - i) as usize))
    }
}

/// The cells from `(x0, y)` to `(x1, y)`, one column at a time.
pub open spec fn row_run(y: usize, x0: usize, x1: usize) -> Seq<Coord> {
    if x0 <= x1 {
        Seq::new((x1 - x0 + 1) as nat, |i: int| ((x0 + i) as usize, y))
    } else {
        Seq::new((x0 - x1 + 1) as nat, |i: int| ((x0 - i) as usize, y))
    }
}

/// A straight run of open cells down a column is a walk from its first cell
/// to its last.
pub proof fn lemma_column_run(g: Seq<Seq<Cell>>, x: usize, y0: usize, y1: usize)
    requires
        forall|i: int| 0 <= i < column_run(x, y0, y1).len() ==> is_open(g, #[trigger] column_run(x, y0, y1)[i]),
    ensures
        walk_from(g, column_run(x, y0, y1), (x, y0)),
        column_run(x, y0, y1).last() == (x, y1),
{
    let p = column_run(x, y0, y1);
    assert(is_open(g, p[0]));
    assert forall|i: int| 0 <= i < p.len() - 1 implies #[trigger] step_ok(g, Seq::empty(), Seq::empty(), p[i], p[i + 1]) by {
        assert(is_open(g, p[i + 1]));
    }
}

/// A straight run of open cells along a row is a walk from its first cell
/// to its last.
pub proof fn lemma_row_run(g: Seq<Seq<Cell>>, y: usize, x0: usize, x1: usize)
    requires
        forall|i: int| 0 <= i < row_run(y, x0, x1).len() ==> is_open(g, #[trigger] row_run(y, x0, x1)[i]),
    ensures
        walk_from(g, row_run(y, x0, x1), (x0, y)),
        row_run(y, x0, x1).last() == (x1, y),
{
    let p = row_run(y, x0, x1);
    assert(is_open(g, p[0]));
    assert forall|i: int| 0 <= i < p.len() - 1 implies #[trigger] step_ok(g, Seq::empty(), Seq::empty(), p[i], p[i + 1]) by {
        assert(is_open(g, p[i + 1]));
    }
}

/// A walk to `m` followed by a walk from `m` is a walk.
pub proof fn lemma_walk_join(g: Seq<Seq<Cell>>, p: Seq<Coord>, q: Seq<Coord>, s: Coord)
    requires
        walk_from(g, p, s),
        walk_from(g, q, p.last()),
    ensures
        walk_from(g, p + q.drop_first(), s),
        (p + q.drop_first()).last() == q.last(),
{
    let r = p + q.drop_first();
    assert forall|i: int| 0 <= i < r.len() - 1 implies #[trigger] step_ok(g, Seq::empty(), Seq::empty(), r[i], r[i + 1]) by {
        if i < p.len() - 1 {
            assert(r[i] == p[i] && r[i + 1] == p[i + 1]);
            assert(step_ok(g, Seq::empty(), Seq::empty(), p[i], p[i + 1]));
        } else {
            let j = i - (p.len() - 1);
            assert(r[i] == q[j] && r[i + 1] == q[j + 1]);
            assert(step_ok(g, Seq::empty(), Seq::empty(), q[j], q[j + 1]));
        }
    }
    if q.len() > 1 {
        assert(r.last() == q.last());
    }
}

} // verus!
