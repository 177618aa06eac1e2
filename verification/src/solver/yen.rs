//! Why Yen's algorithm returns the k shortest loopless routes: every route
//! not yet selected has a candidate at most as long waiting to be picked.

use vstd::prelude::*;

use crate::mazes::cell::Cell;

use super::walks::{self, Coord};

verus! {

/// The directed edges out of `p[i]` taken by the paths of `a` that go on
/// past cell `i` and start with the first `i + 1` cells of `p`.
pub open spec fn edges_at(a: Seq<Seq<Coord>>, p: Seq<Coord>, i: int) -> Seq<(Coord, Coord)>
    decreases a.len(),
{
    if a.len() == 0 {
        Seq::empty()
    } else {
        let q = a.last();
        let rest = edges_at(a.drop_last(), p, i);
        if q.len() > i + 1 && q.take(i + 1) == p.take(i + 1) {
            rest.push((q[i], q[i + 1]))
        } else {
            rest
        }
    }
}

/// What `edges_at` holds.
pub proof fn lemma_edges_at(a: Seq<Seq<Coord>>, p: Seq<Coord>, i: int)
    ensures
        forall|e: (Coord, Coord)|
            #[trigger] edges_at(a, p, i).contains(e) <==> exists|j: int|
                0 <= j < a.len() && a[j].len() > i + 1 && a[j].take(i + 1) == p.take(i + 1) && e == (
                #[trigger] a[j][i],
                a[j][i + 1],
            ),
    decreases a.len(),
{
    if a.len() > 0 {
        let d = a.drop_last();
        lemma_edges_at(d, p, i);
        let rest = edges_at(d, p, i);
        let q = a.last();
        assert forall|e: (Coord, Coord)| #[trigger] edges_at(a, p, i).contains(e) <==> exists|j: int|
            0 <= j < a.len() && a[j].len() > i + 1 && a[j].take(i + 1) == p.take(i + 1) && e == (
            #[trigger] a[j][i],
            a[j][i + 1],
        ) by {
            let s = edges_at(a, p, i);
            if s.contains(e) {
                if q.len() > i + 1 && q.take(i + 1) == p.take(i + 1) && e == (q[i], q[i + 1]) {
                    assert(a[a.len() - 1] == q);
                } else {
                    if q.len() > i + 1 && q.take(i + 1) == p.take(i + 1) {
                        let k = choose|k: int| 0 <= k < s.len() && s[k] == e;
                        assert(k < rest.len());
                        assert(rest[k] == e);
                    }
                    assert(rest.contains(e));
                    let j = choose|j: int|
                        0 <= j < d.len() && d[j].len() > i + 1 && d[j].take(i + 1) == p.take(i + 1) && e == (
                        #[trigger] d[j][i],
                        d[j][i + 1],
                    );
                    assert(a[j] == d[j]);
                }
            }
            if exists|j: int|
                0 <= j < a.len() && a[j].len() > i + 1 && a[j].take(i + 1) == p.take(i + 1) && e == (
                #[trigger] a[j][i],
                a[j][i + 1],
            ) {
                let j = choose|j: int|
                    0 <= j < a.len() && a[j].len() > i + 1 && a[j].take(i + 1) == p.take(i + 1) && e == (
                    #[trigger] a[j][i],
                    a[j][i + 1],
                );
                if j == a.len() - 1 {
                    assert(s.last() == e);
                    assert(s[s.len() - 1] == e);
                } else {
                    assert(d[j] == a[j]);
                    assert(d[j][i] == a[j][i]);
                    assert(rest.contains(e));
                    let k = choose|k: int| 0 <= k < rest.len() && rest[k] == e;
                    if q.len() > i + 1 && q.take(i + 1) == p.take(i + 1) {
                        assert(s[k] == e);
                    }
                }
            }
        }
    }
}

/// The spur of route `a[r]` at cell `i` is on record: if some walk from
/// `a[r][i]` to the goal avoids the cells before `i` and the edges that the
/// routes up to `a[r]` sharing its first `i + 1` cells take out of it, then
/// for one shortest such walk `s` the route `a[r][..i] + s` is in `a` or `b`.
pub open spec fn spur_recorded(
    g: Seq<Seq<Cell>>,
    goal: Coord,
    a: Seq<Seq<Coord>>,
    b: Seq<Seq<Coord>>,
    r: int,
    i: int,
) -> bool {
    let q = a[r];
    let bn = q.take(i);
    let be = edges_at(a.take(r + 1), q, i);
    walks::reachable(g, bn, be, q[i], goal) ==> exists|s: Seq<Coord>|
        #[trigger] walks::is_shortest(g, bn, be, s, q[i], goal) && (a.contains(q.take(i) + s) || b.contains(
            q.take(i) + s,
        ))
}

/// A record survives when `b` only grows.
pub proof fn lemma_recorded_grow(
    g: Seq<Seq<Cell>>,
    goal: Coord,
    a: Seq<Seq<Coord>>,
    b: Seq<Seq<Coord>>,
    b2: Seq<Seq<Coord>>,
    r: int,
    i: int,
)
    requires
        spur_recorded(g, goal, a, b, r, i),
        forall|c: Seq<Coord>| b.contains(c) ==> #[trigger] b2.contains(c),
    ensures
        spur_recorded(g, goal, a, b2, r, i),
{
    let q = a[r];
    let bn = q.take(i);
    let be = edges_at(a.take(r + 1), q, i);
    if walks::reachable(g, bn, be, q[i], goal) {
        let s = choose|s: Seq<Coord>|
            #[trigger] walks::is_shortest(g, bn, be, s, q[i], goal) && (a.contains(q.take(i) + s) || b.contains(
                q.take(i) + s,
            ));
        if b.contains(q.take(i) + s) {
            assert(b2.contains(q.take(i) + s));
        }
    }
}

/// A record survives moving `b[best]` from `b` to the end of `a`.
pub proof fn lemma_recorded_move(
    g: Seq<Seq<Cell>>,
    goal: Coord,
    a: Seq<Seq<Coord>>,
    b: Seq<Seq<Coord>>,
    best: int,
    r: int,
    i: int,
)
    requires
        0 <= r < a.len(),
        0 <= best < b.len(),
        spur_recorded(g, goal, a, b, r, i),
    ensures
        spur_recorded(g, goal, a.push(b[best]), b.remove(best), r, i),
{
    let a2 = a.push(b[best]);
    let b2 = b.remove(best);
    let q = a[r];
    assert(a2[r] == q);
    assert(a2.take(r + 1) =~= a.take(r + 1));
    let bn = q.take(i);
    let be = edges_at(a.take(r + 1), q, i);
    if walks::reachable(g, bn, be, q[i], goal) {
        let s = choose|s: Seq<Coord>|
            #[trigger] walks::is_shortest(g, bn, be, s, q[i], goal) && (a.contains(q.take(i) + s) || b.contains(
                q.take(i) + s,
            ));
        let c = q.take(i) + s;
        if a.contains(c) {
            let j = choose|j: int| 0 <= j < a.len() && a[j] == c;
            assert(a2[j] == c);
        } else {
            let j = choose|j: int| 0 <= j < b.len() && b[j] == c;
            if j == best {
                assert(a2[a.len() as int] == c);
            } else if j < best {
                assert(b2[j] == c);
            } else {
                assert(b2[j - 1] == c);
            }
        }
    }
}

/// The last index up to which `q` and `p` agree, looking on from index `j`.
pub open spec fn agree_upto(q: Seq<Coord>, p: Seq<Coord>, j: int) -> int
    decreases q.len() - j,
{
    if 0 <= j && j + 1 < q.len() && j + 1 < p.len() && q[j + 1] == p[j + 1] {
        agree_upto(q, p, j + 1)
    } else {
        j
    }
}

/// `q` and `p` agree on their first `i + 1` cells.
pub open spec fn shares(q: Seq<Coord>, p: Seq<Coord>, i: int) -> bool {
    0 <= i && q.len() > i && p.len() > i && q.take(i + 1) == p.take(i + 1)
}

/// Agreement from `j` on reaches exactly the longest common prefix.
pub proof fn lemma_agree(q: Seq<Coord>, p: Seq<Coord>, j: int)
    requires
        shares(q, p, j),
    ensures
        j <= agree_upto(q, p, j),
        shares(q, p, agree_upto(q, p, j)),
        forall|m: int| #[trigger] shares(q, p, m) ==> m <= agree_upto(q, p, j),
    decreases q.len() - j,
{
    let l = agree_upto(q, p, j);
    if j + 1 < q.len() && j + 1 < p.len() && q[j + 1] == p[j + 1] {
        assert(q.take(j + 2) =~= q.take(j + 1).push(q[j + 1]));
        assert(p.take(j + 2) =~= p.take(j + 1).push(p[j + 1]));
        assert(shares(q, p, j + 1));
        lemma_agree(q, p, j + 1);
    } else {
        assert forall|m: int| #[trigger] shares(q, p, m) implies m <= l by {
            if m > j {
                assert(q.take(m + 1)[j + 1] == p.take(m + 1)[j + 1]);
            }
        }
    }
}

/// The longest prefix that `p` has in common with a path of `a` (-1 when
/// `a` is empty).
pub open spec fn best_agree(a: Seq<Seq<Coord>>, p: Seq<Coord>) -> int
    decreases a.len(),
{
    if a.len() == 0 {
        -1
    } else {
        let m = best_agree(a.drop_last(), p);
        let l = agree_upto(a.last(), p, 0);
        if m >= l {
            m
        } else {
            l
        }
    }
}

/// Agreement from `j` on reaches at least `j`.
pub proof fn lemma_agree_at_least(q: Seq<Coord>, p: Seq<Coord>, j: int)
    requires
        0 <= j,
    ensures
        j <= agree_upto(q, p, j),
    decreases q.len() - j,
{
    if j + 1 < q.len() && j + 1 < p.len() && q[j + 1] == p[j + 1] {
        lemma_agree_at_least(q, p, j + 1);
    }
}

/// `best_agree` is the largest agreement and some path reaches it.
pub proof fn lemma_best_agree(a: Seq<Seq<Coord>>, p: Seq<Coord>)
    ensures
        forall|r: int| 0 <= r < a.len() ==> agree_upto(#[trigger] a[r], p, 0) <= best_agree(a, p),
        a.len() > 0 ==> exists|r: int| 0 <= r < a.len() && agree_upto(#[trigger] a[r], p, 0) == best_agree(a, p),
    decreases a.len(),
{
    if a.len() > 0 {
        let d = a.drop_last();
        lemma_best_agree(d, p);
        assert forall|r: int| 0 <= r < a.len() implies agree_upto(#[trigger] a[r], p, 0) <= best_agree(a, p) by {
            if r < d.len() {
                assert(a[r] == d[r]);
            }
        }
        lemma_agree_at_least(a.last(), p, 0);
        if best_agree(d, p) >= agree_upto(a.last(), p, 0) && d.len() > 0 {
            let r = choose|r: int| 0 <= r < d.len() && agree_upto(#[trigger] d[r], p, 0) == best_agree(d, p);
            assert(a[r] == d[r]);
        } else {
            assert(a[a.len() - 1] == a.last());
        }
    }
}

/// The last index of `a` whose path shares the first `i + 1` cells of `p`
/// (-1 when there is none).
pub open spec fn last_sharing(a: Seq<Seq<Coord>>, p: Seq<Coord>, i: int) -> int
    decreases a.len(),
{
    if a.len() == 0 {
        -1
    } else if shares(a.last(), p, i) {
        a.len() - 1
    } else {
        last_sharing(a.drop_last(), p, i)
    }
}

/// `last_sharing` finds a sharing path, and none comes after it.
pub proof fn lemma_last_sharing(a: Seq<Seq<Coord>>, p: Seq<Coord>, i: int, r0: int)
    requires
        0 <= r0 < a.len(),
        shares(a[r0], p, i),
    ensures
        r0 <= last_sharing(a, p, i) < a.len(),
        shares(a[last_sharing(a, p, i)], p, i),
        forall|x: int| last_sharing(a, p, i) < x < a.len() ==> !shares(#[trigger] a[x], p, i),
    decreases a.len(),
{
    if !shares(a.last(), p, i) {
        let d = a.drop_last();
        assert(r0 < a.len() - 1);
        assert(d[r0] == a[r0]);
        lemma_last_sharing(d, p, i, r0);
        let l = last_sharing(d, p, i);
        assert(a[l] == d[l]);
        assert forall|x: int| l < x < a.len() implies !shares(#[trigger] a[x], p, i) by {
            if x < d.len() {
                assert(a[x] == d[x]);
            }
        }
    }
}

/// Every route that `a` does not hold has a candidate in `b` at most as long,
/// once the spurs of all of `a` are on record.
pub proof fn lemma_candidate_waits(
    g: Seq<Seq<Cell>>,
    start: Coord,
    goal: Coord,
    a: Seq<Seq<Coord>>,
    b: Seq<Seq<Coord>>,
    p: Seq<Coord>,
)
    requires
        a.len() > 0,
        forall|j: int| 0 <= j < a.len() ==> walks::is_route(g, #[trigger] a[j], start, goal),
        forall|r: int, i: int|
            0 <= r < a.len() && 0 <= i < a[r].len() - 1 ==> #[trigger] spur_recorded(g, goal, a, b, r, i),
        walks::is_route(g, p, start, goal),
        !a.contains(p),
    ensures
        exists|c: Seq<Coord>| #[trigger] b.contains(c) && c.len() <= p.len(),
{
    let e = Seq::<Coord>::empty();
    let ee = Seq::<(Coord, Coord)>::empty();
    lemma_best_agree(a, p);
    let m = best_agree(a, p);
    let r0 = choose|r: int| 0 <= r < a.len() && agree_upto(#[trigger] a[r], p, 0) == m;
    assert(walks::is_route(g, a[r0], start, goal));
    assert(shares(a[r0], p, 0)) by {
        assert(a[r0].take(1) =~= seq![start]);
        assert(p.take(1) =~= seq![start]);
    }
    lemma_agree(a[r0], p, 0);
    let i = m;
    assert(shares(a[r0], p, i));
    lemma_last_sharing(a, p, i, r0);
    let rs = last_sharing(a, p, i);
    let q = a[rs];
    assert(walks::is_route(g, q, start, goal));
    assert(shares(q, p, 0)) by {
        assert(q.take(1) =~= seq![start]);
        assert(p.take(1) =~= seq![start]);
    }
    lemma_agree(q, p, 0);
    assert(agree_upto(q, p, 0) == i);
    // Neither route ends where the common prefix does.
    assert(q[i] == p[i]) by {
        assert(q.take(i + 1)[i] == p.take(i + 1)[i]);
    }
    assert(a[rs] == q);
    assert(i < q.len() - 1 && i < p.len() - 1) by {
        if i == q.len() - 1 {
            assert(q[i] == goal);
            if i < p.len() - 1 {
                assert(p[i] == goal);
                assert(p[p.len() - 1] == goal);
                assert(p.no_duplicates());
                assert(false);
            }
            assert(q.take(i + 1) =~= q);
            assert(p.take(i + 1) =~= p);
            assert(q =~= p);
            assert(a.contains(p));
        } else if i == p.len() - 1 {
            assert(q[i] == goal);
            assert(q[q.len() - 1] == goal);
            assert(q.no_duplicates());
        }
    }
    let bn = q.take(i);
    let ap = a.take(rs + 1);
    let be = edges_at(ap, q, i);
    lemma_edges_at(ap, q, i);
    let w = p.subrange(i, p.len() as int);
    assert(walks::is_walk(g, e, ee, p, start));
    assert(walks::is_open(g, q[i])) by {
        if i == 0 {
            assert(p[0] == start);
        } else {
            let j = i - 1;
            assert(walks::step_ok(g, e, ee, p[j], p[j + 1]));
        }
    }
    assert forall|t: int| 0 <= t < w.len() - 1 implies #[trigger] walks::step_ok(g, bn, be, w[t], w[t + 1]) by {
        assert(w[t] == p[i + t] && w[t + 1] == p[i + t + 1]);
        assert(walks::step_ok(g, e, ee, p[i + t], p[i + t + 1]));
        if bn.contains(p[i + t + 1]) {
            let u = choose|u: int| 0 <= u < bn.len() && bn[u] == p[i + t + 1];
            assert(q.take(i + 1)[u] == p.take(i + 1)[u]);
            assert(p[u] == p[i + t + 1]);
        }
        if be.contains((p[i + t], p[i + t + 1])) {
            let j = choose|j: int|
                0 <= j < ap.len() && ap[j].len() > i + 1 && ap[j].take(i + 1) == q.take(i + 1) && (p[i + t], p[i
                    + t + 1]) == (#[trigger] ap[j][i], ap[j][i + 1]);
            let y = ap[j];
            assert(y == a[j]);
            assert(y[i] == q[i]) by {
                assert(y.take(i + 1)[i] == q.take(i + 1)[i]);
            }
            assert(t == 0);
            assert(shares(y, p, i + 1)) by {
                assert(y.take(i + 2) =~= y.take(i + 1).push(y[i + 1]));
                assert(p.take(i + 2) =~= p.take(i + 1).push(p[i + 1]));
            }
            assert(shares(y, p, 0)) by {
                assert(y.take(1) =~= y.take(i + 1).take(1));
                assert(p.take(1) =~= p.take(i + 1).take(1));
            }
            lemma_agree(y, p, 0);
            assert(agree_upto(a[j], p, 0) <= m);
        }
    }
    assert(w[0] == q[i]);
    assert(walks::reaches(g, bn, be, w, q[i], goal));
    assert(spur_recorded(g, goal, a, b, rs, i));
    let s = choose|s: Seq<Coord>|
        #[trigger] walks::is_shortest(g, bn, be, s, q[i], goal) && (a.contains(q.take(i) + s) || b.contains(
            q.take(i) + s,
        ));
    let c = q.take(i) + s;
    assert(s.len() <= w.len());
    assert(c.len() <= p.len());
    // The candidate is not a route already selected.
    assert(q[i] != goal) by {
        assert(q[q.len() - 1] == goal);
    }
    assert(s.len() >= 2);
    assert(c.take(i + 1) =~= q.take(i + 1)) by {
        assert(c[i] == s[0]);
    }
    assert(c[i + 1] == s[1]);
    assert(walks::step_ok(g, bn, be, s[0], s[1]));
    if a.contains(c) {
        let x = choose|x: int| 0 <= x < a.len() && a[x] == c;
        if x <= rs {
            assert(ap[x] == c);
            assert(be.contains((c[i], c[i + 1])));
        } else {
            assert(shares(a[x], p, i));
        }
    }
    assert(b.contains(c));
}

} // verus!
