//! Yen's algorithm: the *k* shortest loopless paths from start to goal on a
//! 4-connected grid. Edges have unit weight, so each underlying
//! shortest-path query is a breadth-first search.

use vstd::prelude::*;

use crate::mazes::cell::{self, Cell, MazeGrid};

use super::walks::{self, Coord};
use super::yen;

verus! {

/// Whether `v` holds `c`.
pub fn contains_coord(v: &Vec<Coord>, c: Coord) -> (r: bool)
    ensures
        r == v@.contains(c),
{
    let mut i: usize = 0;
    while i < v.len()
        invariant
            i <= v@.len(),
            forall|j: int| 0 <= j < i ==> v@[j] != c,
        decreases v@.len() - i,
    {
        if v[i].0 == c.0 && v[i].1 == c.1 {
            assert(v@[i as int] == c);
            return true;
        }
        i = i + 1;
    }
    false
}

/// Whether `v` holds the directed edge `e`.
pub(crate) fn contains_edge(v: &Vec<(Coord, Coord)>, e: (Coord, Coord)) -> (r: bool)
    ensures
        r == v@.contains(e),
{
    let mut i: usize = 0;
    while i < v.len()
        invariant
            i <= v@.len(),
            forall|j: int| 0 <= j < i ==> v@[j] != e,
        decreases v@.len() - i,
    {
        let f = v[i];
        if f.0.0 == e.0.0 && f.0.1 == e.0.1 && f.1.0 == e.1.0 && f.1.1 == e.1.1 {
            assert(v@[i as int] == e);
            return true;
        }
        i = i + 1;
    }
    false
}

/// The flag stored for cell `c` of a grid-shaped table.
pub open spec fn at<T>(t: Seq<Vec<T>>, c: Coord) -> T {
    t[c.1 as int]@[c.0 as int]
}

/// `t` has the shape of a grid with `h` rows of `w` entries.
pub open spec fn shaped<T>(t: Seq<Vec<T>>, w: nat, h: nat) -> bool {
    t.len() == h && forall|y: int| 0 <= y < h ==> #[trigger] t[y]@.len() == w
}

/// A `w` x `h` table filled with `v`.
fn table<T: Copy>(w: usize, h: usize, v: T) -> (t: Vec<Vec<T>>)
    ensures
        shaped(t@, w as nat, h as nat),
        forall|y: int, x: int| 0 <= y < h && 0 <= x < w ==> #[trigger] t@[y]@[x] == v,
{
    let mut t: Vec<Vec<T>> = Vec::new();
    for y in 0..h
        invariant
            t@.len() == y,
            forall|j: int| 0 <= j < y ==> #[trigger] t@[j]@.len() == w,
            forall|j: int, x: int| 0 <= j < y && 0 <= x < w ==> #[trigger] t@[j]@[x] == v,
    {
        let mut row: Vec<T> = Vec::new();
        for x in 0..w
            invariant
                row@.len() == x,
                forall|i: int| 0 <= i < x ==> #[trigger] row@[i] == v,
        {
            row.push(v);
        }
        t.push(row);
    }
    t
}

/// The neighbour of `c` in direction `d` (right, left, down, up), if it has
/// non-negative coordinates.
pub open spec fn neighbour(c: Coord, d: int) -> Option<Coord> {
    if d == 0 {
        Some(((c.0 + 1) as usize, c.1))
    } else if d == 1 {
        if c.0 > 0 {
            Some(((c.0 - 1) as usize, c.1))
        } else {
            None
        }
    } else if d == 2 {
        Some((c.0, (c.1 + 1) as usize))
    } else if c.1 > 0 {
        Some((c.0, (c.1 - 1) as usize))
    } else {
        None
    }
}

/// Every cell adjacent to `a` is one of its four neighbours.
pub proof fn lemma_adjacent_is_neighbour(a: Coord, b: Coord)
    requires
        walks::adjacent(a, b),
    ensures
        exists|d: int| 0 <= d < 4 && #[trigger] neighbour(a, d) == Some(b),
{
    if a.1 == b.1 && a.0 + 1 == b.0 {
        assert(neighbour(a, 0) == Some(b));
    } else if a.1 == b.1 {
        assert(neighbour(a, 1) == Some(b));
    } else if a.1 + 1 == b.1 {
        assert(neighbour(a, 2) == Some(b));
    } else {
        assert(neighbour(a, 3) == Some(b));
    }
}

/// Once every queued cell has been expanded, every walk ends on a queued cell.
proof fn lemma_bfs_closed(
    g: Seq<Seq<Cell>>,
    bn: Seq<Coord>,
    be: Seq<(Coord, Coord)>,
    start: Coord,
    q: Seq<Coord>,
    dm: Map<Coord, int>,
    p: Seq<Coord>,
)
    requires
        walks::is_walk(g, bn, be, p, start),
        dm.contains_key(start),
        forall|c: Coord| #[trigger] dm.contains_key(c) <==> q.contains(c),
        forall|k: int, n: Coord|
            0 <= k < q.len() && #[trigger] walks::step_ok(g, bn, be, q[k], n) ==> dm.contains_key(n),
    ensures
        dm.contains_key(p.last()),
    decreases p.len(),
{
    if p.len() > 1 {
        let pre = p.drop_last();
        assert forall|i: int| 0 <= i < pre.len() - 1 implies #[trigger] walks::step_ok(
            g,
            bn,
            be,
            pre[i],
            pre[i + 1],
        ) by {
            assert(walks::step_ok(g, bn, be, p[i], p[i + 1]));
        }
        lemma_bfs_closed(g, bn, be, start, q, dm, pre);
        let y = pre.last();
        assert(dm.contains_key(y));
        assert(q.contains(y));
        let k = choose|k: int| 0 <= k < q.len() && q[k] == y;
        let i = p.len() - 2;
        assert(walks::step_ok(g, bn, be, p[i], p[i + 1]));
        assert(walks::step_ok(g, bn, be, q[k], p.last()));
    }
}

/// Moving the head of the queue forward keeps "every walk of length at most
/// the head's distance ends on a cell queued at most that far".
proof fn lemma_bfs_advance(
    g: Seq<Seq<Cell>>,
    bn: Seq<Coord>,
    be: Seq<(Coord, Coord)>,
    start: Coord,
    q: Seq<Coord>,
    dm: Map<Coord, int>,
    head: int,
)
    requires
        0 <= head,
        head + 1 < q.len(),
        forall|c: Coord| #[trigger] dm.contains_key(c) ==> dm[c] >= 0,
        forall|c: Coord| #[trigger] dm.contains_key(c) <==> q.contains(c),
        forall|i: int, j: int| 0 <= i <= j < q.len() ==> dm[q[i]] <= dm[q[j]],
        dm[q[q.len() - 1]] <= dm[q[head]] + 1,
        forall|k: int, n: Coord|
            0 <= k <= head && #[trigger] walks::step_ok(g, bn, be, q[k], n) ==> dm.contains_key(n)
                && dm[n] <= dm[q[k]] + 1,
        forall|p: Seq<Coord>|
            #[trigger] walks::is_walk(g, bn, be, p, start) && p.len() - 1 <= dm[q[head]]
                ==> dm.contains_key(p.last()) && dm[p.last()] <= p.len() - 1,
    ensures
        forall|p: Seq<Coord>|
            #[trigger] walks::is_walk(g, bn, be, p, start) && p.len() - 1 <= dm[q[head + 1]]
                ==> dm.contains_key(p.last()) && dm[p.last()] <= p.len() - 1,
{
    let d0 = dm[q[head]];
    assert(dm[q[head + 1]] <= d0 + 1) by {
        assert(dm[q[head + 1]] <= dm[q[q.len() - 1]]);
    }
    assert forall|p: Seq<Coord>|
        #[trigger] walks::is_walk(g, bn, be, p, start) && p.len() - 1 <= dm[q[head + 1]] implies dm.contains_key(
        p.last(),
    ) && dm[p.last()] <= p.len() - 1 by {
        if p.len() - 1 > d0 {
            let pre = p.drop_last();
            assert forall|i: int| 0 <= i < pre.len() - 1 implies #[trigger] walks::step_ok(
                g,
                bn,
                be,
                pre[i],
                pre[i + 1],
            ) by {
                assert(walks::step_ok(g, bn, be, p[i], p[i + 1]));
            }
            assert(dm.contains_key(q[head]));
            assert(pre.len() >= 1);
            assert(walks::is_walk(g, bn, be, pre, start));
            let y = pre.last();
            assert(dm.contains_key(y) && dm[y] <= d0);
            assert(q.contains(y));
            let j = choose|j: int| 0 <= j < q.len() && q[j] == y;
            if j > head {
                assert(dm[q[head + 1]] <= dm[q[j]]);
            }
            let i = p.len() - 2;
            assert(walks::step_ok(g, bn, be, p[i], p[i + 1]));
            assert(walks::step_ok(g, bn, be, q[j], p.last()));
        }
    }
}

/// Breadth-first shortest walk from `start` to `goal` that avoids the cells
/// of `banned_nodes` (the start itself excepted) and the directed edges of
/// `banned_edges`.
fn bfs(
    maze: &MazeGrid,
    start: Coord,
    goal: Coord,
    banned_nodes: &Vec<Coord>,
    banned_edges: &Vec<(Coord, Coord)>,
) -> (r: Option<Vec<Coord>>)
    requires
        cell::is_rectangular(cell::grid_view(maze)),
    ensures
        match r {
            Some(p) => walks::is_shortest(
                cell::grid_view(maze),
                banned_nodes@,
                banned_edges@,
                p@,
                start,
                goal,
            ),
            None => !walks::reachable(
                cell::grid_view(maze),
                banned_nodes@,
                banned_edges@,
                start,
                goal,
            ),
        },
{
    let ghost g = cell::grid_view(maze);
    let ghost bn = banned_nodes@;
    let ghost be = banned_edges@;
    let height = maze.len();
    let width = if height > 0 { maze[0].len() } else { 0 };
    assert(width == cell::grid_width(g));
    if start.0 >= width || start.1 >= height {
        assert forall|q: Seq<Coord>| !#[trigger] walks::reaches(g, bn, be, q, start, goal) by {}
        return None;
    }
    assert(maze@[start.1 as int]@.len() == width);
    if maze[start.1][start.0] == Cell::Wall {
        assert forall|q: Seq<Coord>| !#[trigger] walks::reaches(g, bn, be, q, start, goal) by {}
        return None;
    }
    let mut visited: Vec<Vec<bool>> = table(width, height, false);
    let mut parent: Vec<Vec<Option<Coord>>> = table(width, height, None);
    let mut queue: Vec<Coord> = Vec::new();
    queue.push(start);
    visited[start.1][start.0] = true;
    let ghost mut dm: Map<Coord, int> = Map::empty().insert(start, 0);
    let mut head: usize = 0;
    proof {
        assert forall|p: Seq<Coord>|
            #[trigger] walks::is_walk(g, bn, be, p, start) && p.len() - 1 <= dm[queue@[0]] implies dm.contains_key(
            p.last(),
        ) && dm[p.last()] <= p.len() - 1 by {
            assert(p.len() == 1);
        }
        assert forall|c: Coord| #[trigger] dm.contains_key(c) <==> queue@.contains(c) by {
            if c == start {
                assert(queue@[0] == c);
            }
        }
    }
    while head < queue.len()
        invariant
            g == cell::grid_view(maze),
            cell::is_rectangular(g),
            bn == banned_nodes@,
            be == banned_edges@,
            height == g.len(),
            width == cell::grid_width(g),
            walks::is_open(g, start),
            shaped(visited@, width as nat, height as nat),
            shaped(parent@, width as nat, height as nat),
            queue@.len() >= 1,
            queue@[0] == start,
            head <= queue@.len(),
            queue@.no_duplicates(),
            forall|i: int| 0 <= i < queue@.len() ==> walks::is_open(g, #[trigger] queue@[i]),
            forall|c: Coord| #[trigger] dm.contains_key(c) <==> queue@.contains(c),
            forall|c: Coord|
                walks::in_bounds(g, c) ==> (#[trigger] at(visited@, c) <==> dm.contains_key(c)),
            dm.contains_key(start),
            dm[start] == 0,
            at(parent@, start) == None::<Coord>,
            forall|c: Coord|
                #[trigger] dm.contains_key(c) ==> dm[c] >= 0 && (c != start ==> (at(parent@, c) matches Some(p)
                    && dm.contains_key(p) && dm[p] + 1 == dm[c] && walks::step_ok(g, bn, be, p, c))),
            forall|i: int, j: int| 0 <= i <= j < queue@.len() ==> dm[queue@[i]] <= dm[queue@[j]],
            head < queue@.len() ==> dm[queue@[queue@.len() - 1]] <= dm[queue@[head as int]] + 1,
            forall|k: int, n: Coord|
                0 <= k < head && #[trigger] walks::step_ok(g, bn, be, queue@[k], n) ==> dm.contains_key(n)
                    && dm[n] <= dm[queue@[k]] + 1,
            head < queue@.len() ==> forall|p: Seq<Coord>|
                #[trigger] walks::is_walk(g, bn, be, p, start) && p.len() - 1 <= dm[queue@[head as int]]
                    ==> dm.contains_key(p.last()) && dm[p.last()] <= p.len() - 1,
            forall|k: int| 0 <= k < head ==> queue@[k] != goal,
        decreases width * height - head,
    {
        proof {
            walks::lemma_distinct_cells_bound(queue@, width as nat, height as nat);
        }
        let cur = queue[head];
        let ghost dcur = dm[cur];
        if cur.0 == goal.0 && cur.1 == goal.1 {
            // Walk the parent links back to the start.
            let mut rev: Vec<Coord> = Vec::new();
            rev.push(cur);
            let mut c = cur;
            loop
                invariant
                    g == cell::grid_view(maze),
                    bn == banned_nodes@,
                    be == banned_edges@,
                    dm.contains_key(c),
                    forall|c2: Coord|
                        #[trigger] dm.contains_key(c2) ==> dm[c2] >= 0 && (c2 != start ==> (at(parent@, c2) matches Some(p)
                            && dm.contains_key(p) && dm[p] + 1 == dm[c2] && walks::step_ok(g, bn, be, p, c2))),
                    dm[start] == 0,
                    at(parent@, start) == None::<Coord>,
                    shaped(parent@, width as nat, height as nat),
                    forall|i: int| 0 <= i < queue@.len() ==> walks::is_open(g, #[trigger] queue@[i]),
                    forall|c2: Coord| #[trigger] dm.contains_key(c2) <==> queue@.contains(c2),
                    height == g.len(),
                    width == cell::grid_width(g),
                    rev@.len() >= 1,
                    rev@[0] == goal,
                    rev@.last() == c,
                    rev@.len() == dcur - dm[c] + 1,
                    forall|t: int| 0 <= t < rev@.len() - 1 ==> #[trigger] walks::step_ok(g, bn, be, rev@[t + 1], rev@[t]),
                ensures
                    c == start,
                    rev@.len() >= 1,
                    rev@[0] == goal,
                    rev@.last() == start,
                    rev@.len() == dcur + 1,
                    forall|t: int| 0 <= t < rev@.len() - 1 ==> #[trigger] walks::step_ok(g, bn, be, rev@[t + 1], rev@[t]),
                decreases dm[c],
            {
                assert(queue@.contains(c));
                let ghost k = choose|k: int| 0 <= k < queue@.len() && queue@[k] == c;
                assert(walks::is_open(g, queue@[k]));
                assert(parent@[c.1 as int]@.len() == width);
                match parent[c.1][c.0] {
                    None => {
                        assert(c == start);
                        break;
                    },
                    Some(p) => {
                        assert(c != start);
                        let ghost old_rev = rev@;
                        rev.push(p);
                        proof {
                            assert forall|t: int| 0 <= t < rev@.len() - 1 implies #[trigger] walks::step_ok(
                                g,
                                bn,
                                be,
                                rev@[t + 1],
                                rev@[t],
                            ) by {
                                if t < old_rev.len() - 1 {
                                    assert(walks::step_ok(g, bn, be, old_rev[t + 1], old_rev[t]));
                                }
                            }
                        }
                        c = p;
                        if c.0 == start.0 && c.1 == start.1 {
                            break;
                        }
                    },
                }
            }
            // Put the walk in start-to-goal order.
            let n = rev.len();
            let mut path: Vec<Coord> = Vec::new();
            let mut i: usize = 0;
            while i < n
                invariant
                    n == rev@.len(),
                    i <= n,
                    path@.len() == i,
                    forall|t: int| 0 <= t < i ==> #[trigger] path@[t] == rev@[n - 1 - t],
                decreases n - i,
            {
                path.push(rev[n - 1 - i]);
                i = i + 1;
            }
            proof {
                assert forall|t: int| 0 <= t < path@.len() - 1 implies #[trigger] walks::step_ok(
                    g,
                    bn,
                    be,
                    path@[t],
                    path@[t + 1],
                ) by {
                    let u = n - 2 - t;
                    assert(path@[t] == rev@[u + 1]);
                    assert(path@[t + 1] == rev@[u]);
                    assert(walks::step_ok(g, bn, be, rev@[u + 1], rev@[u]));
                }
                assert(path@[0] == start);
                assert(path@.last() == goal);
                assert(walks::reaches(g, bn, be, path@, start, goal));
                assert forall|q: Seq<Coord>| #[trigger] walks::reaches(g, bn, be, q, start, goal) implies path@.len()
                    <= q.len() by {
                    if q.len() - 1 < dcur {
                        assert(walks::is_walk(g, bn, be, q, start));
                        assert(dm[q.last()] <= q.len() - 1);
                    }
                }
            }
            return Some(path);
        }
        // Expand the current cell.
        let mut d: usize = 0;
        while d < 4
            invariant
                g == cell::grid_view(maze),
                cell::is_rectangular(g),
                bn == banned_nodes@,
                be == banned_edges@,
                height == g.len(),
                width == cell::grid_width(g),
                walks::is_open(g, start),
                shaped(visited@, width as nat, height as nat),
                shaped(parent@, width as nat, height as nat),
                queue@.len() >= 1,
                queue@[0] == start,
                head < queue@.len(),
                cur == queue@[head as int],
                dcur == dm[cur],
                cur != goal,
                d <= 4,
                queue@.no_duplicates(),
                forall|i: int| 0 <= i < queue@.len() ==> walks::is_open(g, #[trigger] queue@[i]),
                forall|c: Coord| #[trigger] dm.contains_key(c) <==> queue@.contains(c),
                forall|c: Coord|
                    walks::in_bounds(g, c) ==> (#[trigger] at(visited@, c) <==> dm.contains_key(c)),
                dm.contains_key(start),
                dm[start] == 0,
                at(parent@, start) == None::<Coord>,
                forall|c: Coord|
                    #[trigger] dm.contains_key(c) ==> dm[c] >= 0 && (c != start ==> (at(parent@, c) matches Some(p)
                        && dm.contains_key(p) && dm[p] + 1 == dm[c] && walks::step_ok(g, bn, be, p, c))),
                forall|i: int, j: int| 0 <= i <= j < queue@.len() ==> dm[queue@[i]] <= dm[queue@[j]],
                dm[queue@[queue@.len() - 1]] <= dcur + 1,
                forall|k: int, n: Coord|
                    0 <= k < head && #[trigger] walks::step_ok(g, bn, be, queue@[k], n) ==> dm.contains_key(n)
                        && dm[n] <= dm[queue@[k]] + 1,
                forall|e: int, n: Coord|
                    #![trigger neighbour(cur, e), walks::step_ok(g, bn, be, cur, n)]
                    0 <= e < d && neighbour(cur, e) == Some(n) && walks::step_ok(g, bn, be, cur, n)
                        ==> dm.contains_key(n) && dm[n] <= dcur + 1,
                forall|p: Seq<Coord>|
                    #[trigger] walks::is_walk(g, bn, be, p, start) && p.len() - 1 <= dcur
                        ==> dm.contains_key(p.last()) && dm[p.last()] <= p.len() - 1,
                forall|k: int| 0 <= k <= head ==> queue@[k] != goal,
            decreases 4 - d,
        {
            assert(walks::is_open(g, queue@[head as int]));
            let (exists_n, nx, ny) = if d == 0 {
                (true, cur.0 + 1, cur.1)
            } else if d == 1 {
                if cur.0 > 0 {
                    (true, cur.0 - 1, cur.1)
                } else {
                    (false, 0, 0)
                }
            } else if d == 2 {
                (true, cur.0, cur.1 + 1)
            } else if cur.1 > 0 {
                (true, cur.0, cur.1 - 1)
            } else {
                (false, 0, 0)
            };
            assert(exists_n <==> neighbour(cur, d as int) is Some);
            assert(exists_n ==> neighbour(cur, d as int) == Some((nx, ny)));
            let next = (nx, ny);
            if exists_n && nx < width && ny < height {
                assert(g[ny as int].len() == width);
                assert(maze@[ny as int]@.len() == width);
                let walkable = maze[ny][nx] != Cell::Wall && !contains_coord(banned_nodes, next);
                if walkable && !contains_edge(banned_edges, (cur, next)) {
                    assert(walks::step_ok(g, bn, be, cur, next));
                    assert(visited@[ny as int]@.len() == width);
                    if !visited[ny][nx] {
                        assert(!at(visited@, next));
                        let ghost old_q = queue@;
                        let ghost old_dm = dm;
                        let ghost old_vis = visited@;
                        let ghost old_par = parent@;
                        assert(!old_q.contains(next));
                        visited[ny][nx] = true;
                        parent[ny][nx] = Some(cur);
                        queue.push(next);
                        proof {
                            dm = dm.insert(next, dcur + 1);
                            assert(queue@ == old_q.push(next));
                            assert forall|c: Coord| #[trigger] dm.contains_key(c) <==> queue@.contains(c) by {
                                if c == next {
                                    assert(queue@[old_q.len() as int] == next);
                                } else if old_q.contains(c) {
                                    let k = choose|k: int| 0 <= k < old_q.len() && old_q[k] == c;
                                    assert(queue@[k] == c);
                                } else if queue@.contains(c) {
                                    let k = choose|k: int| 0 <= k < queue@.len() && queue@[k] == c;
                                    assert(old_q[k] == c);
                                }
                            }
                            assert forall|c: Coord| walks::in_bounds(g, c) implies (#[trigger] at(visited@, c)
                                <==> dm.contains_key(c)) by {
                                if c != next {
                                    assert(at(visited@, c) == at(old_vis, c));
                                }
                            }
                            assert(queue@.no_duplicates());
                            assert forall|c: Coord| #[trigger] dm.contains_key(c) implies dm[c] >= 0 && (c
                                != start ==> (at(parent@, c) matches Some(p) && dm.contains_key(p) && dm[p] + 1
                                == dm[c] && walks::step_ok(g, bn, be, p, c))) by {
                                if c != next {
                                    assert(old_dm.contains_key(c));
                                    assert(at(parent@, c) == at(old_par, c));
                                }
                            }
                            assert forall|i: int, j: int| 0 <= i <= j < queue@.len() implies dm[queue@[i]]
                                <= dm[queue@[j]] by {
                                if j == old_q.len() {
                                    assert(dm[queue@[j]] == dcur + 1);
                                    if i < j {
                                        assert(old_dm[old_q[i]] <= old_dm[old_q[old_q.len() - 1]]);
                                    }
                                }
                            }
                        }
                    } else {
                        proof {
                            assert(at(visited@, next));
                            assert(queue@.contains(next));
                            let j = choose|j: int| 0 <= j < queue@.len() && queue@[j] == next;
                            assert(dm[queue@[j]] <= dm[queue@[queue@.len() - 1]]);
                        }
                    }
                }
            }
            proof {
                assert forall|e: int, n: Coord|
                    #![trigger neighbour(cur, e), walks::step_ok(g, bn, be, cur, n)]
                    0 <= e < d + 1 && neighbour(cur, e) == Some(n) && walks::step_ok(g, bn, be, cur, n)
                        implies dm.contains_key(n) && dm[n] <= dcur + 1 by {
                    if e == d {
                        assert(n == next);
                    }
                }
            }
            d = d + 1;
        }
        proof {
            assert forall|k: int, n: Coord|
                0 <= k <= head && #[trigger] walks::step_ok(g, bn, be, queue@[k], n) implies dm.contains_key(n)
                    && dm[n] <= dm[queue@[k]] + 1 by {
                if k == head {
                    lemma_adjacent_is_neighbour(cur, n);
                    let e = choose|e: int| 0 <= e < 4 && #[trigger] neighbour(cur, e) == Some(n);
                    assert(walks::step_ok(g, bn, be, cur, n));
                }
            }
            assert forall|c: Coord| #[trigger] dm.contains_key(c) implies dm[c] >= 0 by {}
            if head + 1 < queue@.len() {
                lemma_bfs_advance(g, bn, be, start, queue@, dm, head as int);
            }
        }
        head = head + 1;
    }
    proof {
        assert forall|q: Seq<Coord>| !#[trigger] walks::reaches(g, bn, be, q, start, goal) by {
            if walks::reaches(g, bn, be, q, start, goal) {
                lemma_bfs_closed(g, bn, be, start, queue@, dm, q);
                assert(queue@.contains(goal));
            }
        }
    }
    None
}

/// Whether two paths are the same.
fn path_eq(p: &Vec<Coord>, q: &Vec<Coord>) -> (r: bool)
    ensures
        r == (p@ == q@),
{
    if p.len() != q.len() {
        return false;
    }
    let mut i: usize = 0;
    while i < p.len()
        invariant
            p@.len() == q@.len(),
            i <= p@.len(),
            forall|j: int| 0 <= j < i ==> p@[j] == q@[j],
        decreases p@.len() - i,
    {
        if !(p[i].0 == q[i].0 && p[i].1 == q[i].1) {
            return false;
        }
        i = i + 1;
    }
    assert(p@ =~= q@);
    true
}

/// The paths of a list, as sequences.
pub open spec fn path_views(v: Seq<Vec<Coord>>) -> Seq<Seq<Coord>> {
    v.map_values(|p: Vec<Coord>| p@)
}

/// Whether some path of `list` equals `p`.
fn list_contains(list: &Vec<Vec<Coord>>, p: &Vec<Coord>) -> (r: bool)
    ensures
        r == path_views(list@).contains(p@),
{
    let mut j: usize = 0;
    while j < list.len()
        invariant
            j <= list@.len(),
            forall|t: int| 0 <= t < j ==> list@[t]@ != p@,
        decreases list@.len() - j,
    {
        if path_eq(&list[j], p) {
            assert(path_views(list@)[j as int] == p@);
            return true;
        }
        j = j + 1;
    }
    assert forall|t: int| 0 <= t < path_views(list@).len() implies path_views(list@)[t] != p@ by {
        assert(list@[t]@ != p@);
    }
    false
}

/// Whether the first `m` cells of two paths agree.
fn prefix_eq(p: &Vec<Coord>, q: &Vec<Coord>, m: usize) -> (r: bool)
    requires
        m <= p@.len(),
        m <= q@.len(),
    ensures
        r == (p@.take(m as int) == q@.take(m as int)),
{
    let mut i: usize = 0;
    while i < m
        invariant
            m <= p@.len(),
            m <= q@.len(),
            i <= m,
            forall|j: int| 0 <= j < i ==> p@[j] == q@[j],
        decreases m - i,
    {
        if !(p[i].0 == q[i].0 && p[i].1 == q[i].1) {
            assert(p@.take(m as int)[i as int] != q@.take(m as int)[i as int]);
            return false;
        }
        i = i + 1;
    }
    assert(p@.take(m as int) =~= q@.take(m as int));
    true
}

/// The loopless route made of the first `i` cells of `prev` followed by
/// `spur`, a shortest walk from `prev[i]` avoiding those cells.
proof fn lemma_spur_candidate(
    g: Seq<Seq<Cell>>,
    prev: Seq<Coord>,
    i: int,
    bn: Seq<Coord>,
    be: Seq<(Coord, Coord)>,
    spur: Seq<Coord>,
    start: Coord,
    goal: Coord,
)
    requires
        walks::is_route(g, prev, start, goal),
        0 <= i < prev.len() - 1,
        forall|t: int| 0 <= t < i ==> bn.contains(#[trigger] prev[t]),
        walks::is_shortest(g, bn, be, spur, prev[i], goal),
    ensures
        walks::is_route(g, prev.take(i) + spur, start, goal),
{
    let c = prev.take(i) + spur;
    walks::lemma_shortest_is_simple(g, bn, be, spur, prev[i], goal);
    walks::lemma_walk_unrestricted(g, bn, be, spur, prev[i]);
    let e = Seq::<Coord>::empty();
    let ee = Seq::<(Coord, Coord)>::empty();
    assert(c.len() == i + spur.len());
    assert(c[0] == start) by {
        if i == 0 {
            assert(c[0] == spur[0]);
        } else {
            assert(c[0] == prev[0]);
        }
    }
    assert(walks::is_open(g, start)) by {
        assert(walks::is_walk(g, e, ee, prev, start));
    }
    assert forall|t: int| 0 <= t < c.len() - 1 implies #[trigger] walks::step_ok(g, e, ee, c[t], c[t + 1]) by {
        if t < i {
            assert(c[t] == prev[t]);
            if t + 1 < i {
                assert(c[t + 1] == prev[t + 1]);
            } else {
                assert(c[t + 1] == spur[0]);
            }
            assert(walks::step_ok(g, e, ee, prev[t], prev[t + 1]));
        } else {
            assert(c[t] == spur[t - i]);
            assert(c[t + 1] == spur[t - i + 1]);
            assert(walks::step_ok(g, e, ee, spur[t - i], spur[t - i + 1]));
        }
    }
    assert(c.last() == goal);
    assert forall|x: int, y: int| 0 <= x < c.len() && 0 <= y < c.len() && x != y implies c[x] != c[y] by {
        if x < i && y < i {
            assert(prev[x] != prev[y]);
        } else if x >= i && y >= i {
            assert(spur[x - i] != spur[y - i]);
        } else {
            let (u, v) = if x < i { (x, y) } else { (y, x) };
            // c[u] = prev[u] with u < i; c[v] = spur[v - i].
            assert(c[u] == prev[u]);
            assert(c[v] == spur[v - i]);
            if v == i {
                assert(spur[0] == prev[i]);
                assert(prev[u] != prev[i]);
            } else {
                let w = v - i - 1;
                assert(walks::step_ok(g, bn, be, spur[w], spur[w + 1]));
                assert(bn.contains(prev[u]));
            }
        }
    }
}

/// Find the `k` shortest loopless paths from `start` to `goal`, by Yen's
/// algorithm: shortest first, each one a shortest route among those not
/// listed before it. Fewer come back only when there are no more routes;
/// none when the goal cannot be reached.
pub fn k_shortest_paths(maze: &MazeGrid, start: Coord, goal: Coord, k: usize) -> (r: Vec<Vec<Coord>>)
    requires
        cell::is_rectangular(cell::grid_view(maze)),
    ensures
        r@.len() <= k,
        k > 0 ==> (r@.len() == 0 <==> !walks::reachable(
            cell::grid_view(maze),
            Seq::empty(),
            Seq::empty(),
            start,
            goal,
        )),
        r@.len() > 0 ==> walks::is_shortest(
            cell::grid_view(maze),
            Seq::empty(),
            Seq::empty(),
            r@[0]@,
            start,
            goal,
        ),
        forall|i: int|
            0 <= i < r@.len() ==> walks::is_route(cell::grid_view(maze), #[trigger] r@[i]@, start, goal),
        forall|i: int, j: int| 0 <= i < j < r@.len() ==> r@[i]@ != r@[j]@,
        forall|i: int, j: int| 0 <= i < j < r@.len() ==> r@[i]@.len() <= r@[j]@.len(),
        forall|p: Seq<Coord>|
            #[trigger] walks::is_route(cell::grid_view(maze), p, start, goal) && !path_views(r@).contains(p) ==> r@.len()
                == k && (k > 0 ==> r@[r@.len() - 1]@.len() <= p.len()),
{
    let ghost g = cell::grid_view(maze);
    let ghost e = Seq::<Coord>::empty();
    let ghost ee = Seq::<(Coord, Coord)>::empty();
    if k == 0 {
        let r: Vec<Vec<Coord>> = Vec::new();
        return r;
    }
    let no_nodes: Vec<Coord> = Vec::new();
    let no_edges: Vec<(Coord, Coord)> = Vec::new();
    let first = match bfs(maze, start, goal, &no_nodes, &no_edges) {
        None => {
            proof {
                assert forall|p: Seq<Coord>| !#[trigger] walks::is_route(g, p, start, goal) by {
                    if walks::is_route(g, p, start, goal) {
                        assert(walks::reaches(g, e, ee, p, start, goal));
                    }
                }
            }
            return Vec::new();
        },
        Some(p) => p,
    };
    proof {
        walks::lemma_shortest_is_simple(g, no_nodes@, no_edges@, first@, start, goal);
    }
    let mut a: Vec<Vec<Coord>> = Vec::new();
    a.push(first);
    let mut b: Vec<Vec<Coord>> = Vec::new();
    let mut done = false;
    proof {
        assert(path_views(a@)[0] == first@);
        assert forall|p: Seq<Coord>| #[trigger] walks::is_route(g, p, start, goal) && !path_views(a@).contains(p) implies !done
            && a@[a@.len() - 1]@.len() <= p.len() by {
            assert(walks::reaches(g, e, ee, p, start, goal));
        }
    }
    while a.len() < k && !done
        invariant
            g == cell::grid_view(maze),
            cell::is_rectangular(g),
            e == Seq::<Coord>::empty(),
            ee == Seq::<(Coord, Coord)>::empty(),
            1 <= a@.len() <= k,
            walks::is_shortest(g, e, ee, a@[0]@, start, goal),
            forall|i: int| 0 <= i < a@.len() ==> walks::is_route(g, #[trigger] a@[i]@, start, goal),
            forall|i: int| 0 <= i < b@.len() ==> walks::is_route(g, #[trigger] b@[i]@, start, goal),
            forall|i: int, j: int| 0 <= i < j < a@.len() ==> a@[i]@ != a@[j]@,
            forall|i: int, j: int| 0 <= i < j < b@.len() ==> b@[i]@ != b@[j]@,
            forall|i: int, j: int| 0 <= i < a@.len() && 0 <= j < b@.len() ==> a@[i]@ != b@[j]@,
            forall|i: int, j: int| 0 <= i < j < a@.len() ==> a@[i]@.len() <= a@[j]@.len(),
            forall|p: Seq<Coord>|
                #[trigger] walks::is_route(g, p, start, goal) && !path_views(a@).contains(p) ==> !done
                    && a@[a@.len() - 1]@.len() <= p.len(),
            forall|r: int, i: int|
                0 <= r < a@.len() - 1 && 0 <= i < a@[r]@.len() - 1 ==> #[trigger] yen::spur_recorded(
                    g,
                    goal,
                    path_views(a@),
                    path_views(b@),
                    r,
                    i,
                ),
        decreases k - a@.len() + (if done { 0int } else { 1int }),
    {
        let last = a.len() - 1;
        let prev = &a[last];
        assert(walks::is_route(g, prev@, start, goal));
        let n = prev.len();
        let mut i: usize = 0;
        while i < n - 1
            invariant
                g == cell::grid_view(maze),
                cell::is_rectangular(g),
                last as int == a@.len() - 1,
                a@.len() >= 1,
                prev == a@[last as int],
                i < n,
                n == prev@.len(),
                walks::is_route(g, prev@, start, goal),
                forall|i: int| 0 <= i < b@.len() ==> walks::is_route(g, #[trigger] b@[i]@, start, goal),
                forall|i: int, j: int| 0 <= i < j < b@.len() ==> b@[i]@ != b@[j]@,
                forall|i: int, j: int| 0 <= i < a@.len() && 0 <= j < b@.len() ==> a@[i]@ != b@[j]@,
                forall|r: int, i2: int|
                    ((0 <= r < a@.len() - 1 && 0 <= i2 < a@[r]@.len() - 1) || (r == a@.len() - 1 && 0 <= i2 < i))
                        ==> #[trigger] yen::spur_recorded(g, goal, path_views(a@), path_views(b@), r, i2),
            decreases n - i,
        {
            let spur_node = prev[i];
            // Forbid the edge out of the spur node along every path found so
            // far that shares this exact prefix.
            let mut banned_edges: Vec<(Coord, Coord)> = Vec::new();
            let mut j: usize = 0;
            while j < a.len()
                invariant
                    i < n - 1,
                    n == prev@.len(),
                    j <= a@.len(),
                    banned_edges@ == yen::edges_at(path_views(a@).take(j as int), prev@, i as int),
                decreases a@.len() - j,
            {
                let path = &a[j];
                let ghost av = path_views(a@);
                proof {
                    assert(av.take(j + 1).drop_last() =~= av.take(j as int));
                    assert(av.take(j + 1).last() == path@);
                }
                if path.len() > i + 1 && prefix_eq(path, prev, i + 1) {
                    banned_edges.push((path[i], path[i + 1]));
                }
                j = j + 1;
            }
            proof {
                assert(path_views(a@).take(a@.len() as int) =~= path_views(a@));
                assert(path_views(a@).take(last + 1) =~= path_views(a@));
            }
            // The root path's cells, the spur node excepted, are off limits.
            let mut banned_nodes: Vec<Coord> = Vec::new();
            let mut t: usize = 0;
            while t <= i
                invariant
                    i < n - 1,
                    n == prev@.len(),
                    t <= i + 1,
                    spur_node == prev@[i as int],
                    prev@.no_duplicates(),
                    banned_nodes@ == prev@.take(if t <= i { t as int } else { i as int }),
                decreases i + 1 - t,
            {
                let c = prev[t];
                if !(c.0 == spur_node.0 && c.1 == spur_node.1) {
                    banned_nodes.push(c);
                    assert(t < i);
                    assert(banned_nodes@ =~= prev@.take(t + 1));
                }
                t = t + 1;
            }
            proof {
                assert forall|u: int| 0 <= u < i implies banned_nodes@.contains(#[trigger] prev@[u]) by {
                    assert(banned_nodes@[u] == prev@[u]);
                }
                assert(path_views(a@)[last as int] == prev@);
            }
            let ghost bv0 = path_views(b@);
            let ghost av = path_views(a@);
            match bfs(maze, spur_node, goal, &banned_nodes, &banned_edges) {
                None => {},
                Some(spur) => {
                    let mut candidate: Vec<Coord> = Vec::new();
                    let mut t: usize = 0;
                    while t < i
                        invariant
                            i < n - 1,
                            n == prev@.len(),
                            t <= i,
                            candidate@ == prev@.take(t as int),
                        decreases i - t,
                    {
                        candidate.push(prev[t]);
                        assert(candidate@ =~= prev@.take(t + 1));
                        t = t + 1;
                    }
                    let mut t: usize = 0;
                    while t < spur.len()
                        invariant
                            t <= spur@.len(),
                            candidate@ == prev@.take(i as int) + spur@.take(t as int),
                        decreases spur@.len() - t,
                    {
                        candidate.push(spur[t]);
                        assert(candidate@ =~= prev@.take(i as int) + spur@.take(t + 1));
                        t = t + 1;
                    }
                    proof {
                        assert(spur@.take(t as int) =~= spur@);
                        lemma_spur_candidate(g, prev@, i as int, banned_nodes@, banned_edges@, spur@, start, goal);
                    }
                    if !list_contains(&a, &candidate) && !list_contains(&b, &candidate) {
                        let ghost old_b = b@;
                        b.push(candidate);
                        proof {
                            assert forall|x: int, y: int| 0 <= x < a@.len() && 0 <= y < b@.len() implies a@[x]@
                                != b@[y]@ by {
                                if y == old_b.len() {
                                    assert(path_views(a@)[x] == a@[x]@);
                                }
                            }
                            assert forall|x: int, y: int| 0 <= x < y < b@.len() implies b@[x]@ != b@[y]@ by {
                                if y == old_b.len() {
                                    assert(path_views(old_b)[x] == old_b[x]@);
                                }
                            }
                        }
                    }
                    proof {
                        let bv = path_views(b@);
                        assert(yen::spur_recorded(g, goal, av, bv, last as int, i as int)) by {
                            let c = prev@.take(i as int) + spur@;
                            assert(walks::is_shortest(
                                g,
                                prev@.take(i as int),
                                yen::edges_at(av.take(last + 1), prev@, i as int),
                                spur@,
                                prev@[i as int],
                                goal,
                            ));
                            if !av.contains(c) && !bv0.contains(c) {
                                assert(bv[bv.len() - 1] == c);
                            }
                            if bv0.contains(c) {
                                let y = choose|y: int| 0 <= y < bv0.len() && bv0[y] == c;
                                assert(bv[y] == c);
                            }
                        }
                    }
                },
            }
            proof {
                let bv = path_views(b@);
                assert forall|c: Seq<Coord>| bv0.contains(c) implies #[trigger] bv.contains(c) by {
                    let y = choose|y: int| 0 <= y < bv0.len() && bv0[y] == c;
                    assert(bv[y] == c);
                }
                assert forall|r: int, i2: int|
                    ((0 <= r < a@.len() - 1 && 0 <= i2 < a@[r]@.len() - 1) || (r == a@.len() - 1 && 0 <= i2 < i
                        + 1)) implies #[trigger] yen::spur_recorded(g, goal, av, bv, r, i2) by {
                    if r < a@.len() - 1 || i2 < i {
                        yen::lemma_recorded_grow(g, goal, av, bv0, bv, r, i2);
                    }
                }
            }
            i = i + 1;
        }
        let ghost av = path_views(a@);
        let ghost bv = path_views(b@);
        proof {
            assert forall|j: int| 0 <= j < av.len() implies walks::is_route(g, #[trigger] av[j], start, goal) by {
                assert(av[j] == a@[j]@);
            }
            assert forall|r: int, i2: int|
                0 <= r < av.len() && 0 <= i2 < av[r].len() - 1 implies #[trigger] yen::spur_recorded(
                g,
                goal,
                av,
                bv,
                r,
                i2,
            ) by {
                assert(av[r] == a@[r]@);
            }
        }
        if b.len() == 0 {
            done = true;
            proof {
                assert forall|p: Seq<Coord>| #[trigger] walks::is_route(g, p, start, goal) implies av.contains(p) by {
                    if !av.contains(p) {
                        yen::lemma_candidate_waits(g, start, goal, av, bv, p);
                    }
                }
            }
        } else {
            // The shortest candidate; the earliest one among equals.
            let mut best: usize = 0;
            let mut j: usize = 1;
            while j < b.len()
                invariant
                    1 <= j <= b@.len(),
                    best < j,
                    forall|t: int| 0 <= t < j ==> b@[best as int]@.len() <= #[trigger] b@[t]@.len(),
                decreases b@.len() - j,
            {
                if b[j].len() < b[best].len() {
                    best = j;
                }
                j = j + 1;
            }
            let ghost old_a = a@;
            let ghost old_b = b@;
            let chosen = b.remove(best);
            a.push(chosen);
            proof {
                assert(a@ == old_a.push(old_b[best as int]));
                assert(path_views(a@) =~= av.push(bv[best as int]));
                assert(path_views(b@) =~= bv.remove(best as int));
                assert forall|x: int, y: int| 0 <= x < y < a@.len() implies a@[x]@ != a@[y]@ by {
                    if y == old_a.len() {
                        assert(old_a[x]@ != old_b[best as int]@);
                    }
                }
                assert forall|y: int| 0 <= y < b@.len() implies #[trigger] b@[y] == (if y < best {
                    old_b[y]
                } else {
                    old_b[y + 1]
                }) by {}
                assert forall|x: int, y: int| 0 <= x < a@.len() && 0 <= y < b@.len() implies a@[x]@ != b@[y]@ by {
                    let oy = if y < best { y } else { y + 1 };
                    assert(b@[y] == old_b[oy]);
                    if x == old_a.len() {
                        assert(old_b[best as int]@ != old_b[oy]@);
                    }
                }
                assert forall|x: int, y: int| 0 <= x < y < b@.len() implies b@[x]@ != b@[y]@ by {
                    let ox = if x < best { x } else { x + 1 };
                    let oy = if y < best { y } else { y + 1 };
                    assert(b@[x] == old_b[ox]);
                    assert(b@[y] == old_b[oy]);
                }
                let cb = bv[best as int];
                assert(cb == old_b[best as int]@);
                assert(walks::is_route(g, cb, start, goal));
                assert(!av.contains(cb)) by {
                    if av.contains(cb) {
                        let x = choose|x: int| 0 <= x < av.len() && av[x] == cb;
                        assert(av[x] == old_a[x]@);
                    }
                }
                assert(old_a[old_a.len() - 1]@.len() <= cb.len());
                assert forall|x: int, y: int| 0 <= x < y < a@.len() implies a@[x]@.len() <= a@[y]@.len() by {
                    if y == old_a.len() {
                        if x < old_a.len() - 1 {
                            assert(old_a[x]@.len() <= old_a[old_a.len() - 1]@.len());
                        }
                    }
                }
                assert forall|p: Seq<Coord>|
                    #[trigger] walks::is_route(g, p, start, goal) && !path_views(a@).contains(p) implies !done
                        && a@[a@.len() - 1]@.len() <= p.len() by {
                    assert(!av.contains(p)) by {
                        if av.contains(p) {
                            let x = choose|x: int| 0 <= x < av.len() && av[x] == p;
                            assert(path_views(a@)[x] == p);
                        }
                    }
                    yen::lemma_candidate_waits(g, start, goal, av, bv, p);
                    let c = choose|c: Seq<Coord>| #[trigger] bv.contains(c) && c.len() <= p.len();
                    let y = choose|y: int| 0 <= y < bv.len() && bv[y] == c;
                    assert(bv[y] == old_b[y]@);
                    assert(old_b[best as int]@.len() <= old_b[y]@.len());
                }
                assert forall|r: int, i2: int|
                    0 <= r < a@.len() - 1 && 0 <= i2 < a@[r]@.len() - 1 implies #[trigger] yen::spur_recorded(
                    g,
                    goal,
                    path_views(a@),
                    path_views(b@),
                    r,
                    i2,
                ) by {
                    assert(a@[r] == old_a[r]);
                    assert(av[r] == old_a[r]@);
                    yen::lemma_recorded_move(g, goal, av, bv, best as int, r, i2);
                }
            }
        }
    }
    a
}

} // verus!
