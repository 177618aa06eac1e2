//! Heuristic functions for A*.
//!
//! A heuristic `h(n)` estimates the remaining cost from node `n` to the goal.
//! Moves are 4-connected with unit cost. Estimates are fixed-point integers:
//! one move costs [`COST_SCALE`] units, so a non-integral distance such as the
//! Euclidean one is kept to within one unit.

use vstd::prelude::*;

use super::walks::{self, Coord};

verus! {

/// The fixed-point cost of one move.
pub const COST_SCALE: u128 = 1024;

/// Gaps along an axis are counted up to this many cells (far beyond any grid
/// that fits in memory).
pub const GAP_LIMIT: u128 = 0x100_0000_0000;

/// Heuristic flavour selectable when running A*.
#[derive(Clone, Copy, PartialEq, Eq, Debug, Structural)]
pub enum Heuristic {
    /// `|dx| + |dy|`.
    Manhattan,
    /// `sqrt(dx^2 + dy^2)`.
    Euclidean,
    /// `max(|dx|, |dy|)`.
    Chebyshev,
    /// Always zero: A* becomes Dijkstra (uniform-cost search).
    Zero,
}

/// The distance between `a` and `b` along one axis, capped at `GAP_LIMIT`.
pub open spec fn gap(a: usize, b: usize) -> int {
    let d = if a >= b { a - b } else { b - a };
    if d <= GAP_LIMIT {
        d
    } else {
        GAP_LIMIT as int
    }
}

/// `r` is the integer square root of `n`.
pub open spec fn is_isqrt(r: int, n: int) -> bool {
    0 <= r && r * r <= n < (r + 1) * (r + 1)
}

/// The largest `r` with `r * r <= n`.
pub open spec fn spec_isqrt(n: nat) -> nat
    decreases n,
{
    if n == 0 {
        0
    } else {
        let r = spec_isqrt((n - 1) as nat);
        if (r + 1) * (r + 1) <= n {
            r + 1
        } else {
            r
        }
    }
}

proof fn lemma_spec_isqrt(n: nat)
    ensures
        is_isqrt(spec_isqrt(n) as int, n as int),
    decreases n,
{
    if n > 0 {
        lemma_spec_isqrt((n - 1) as nat);
        let r = spec_isqrt((n - 1) as nat) as int;
        if (r + 1) * (r + 1) > n {
            assert(r * r <= n);
        } else {
            assert((r + 1) * (r + 1) == n) by (nonlinear_arith)
                requires
                    (r + 1) * (r + 1) <= n,
                    n - 1 < (r + 1) * (r + 1),
            ;
            assert(n < (r + 2) * (r + 2)) by (nonlinear_arith)
                requires
                    (r + 1) * (r + 1) == n,
                    r >= 0,
            ;
        }
    }
}

/// What `estimate` returns, in units of `COST_SCALE` per move: Euclidean is
/// rounded down.
pub open spec fn spec_estimate(h: Heuristic, a: Coord, b: Coord) -> int {
    let dx = gap(a.0, b.0);
    let dy = gap(a.1, b.1);
    match h {
        Heuristic::Manhattan => COST_SCALE * (dx + dy),
        Heuristic::Chebyshev => COST_SCALE * (if dx >= dy { dx } else { dy }),
        Heuristic::Zero => 0,
        Heuristic::Euclidean => spec_isqrt((COST_SCALE * COST_SCALE * (dx * dx + dy * dy)) as nat) as int,
    }
}

/// Every estimate lies between 0 and `2 * COST_SCALE * GAP_LIMIT`.
pub proof fn lemma_estimate_bounds(h: Heuristic, a: Coord, b: Coord)
    ensures
        0 <= spec_estimate(h, a, b) <= 2 * COST_SCALE * GAP_LIMIT,
{
    let dx = gap(a.0, b.0);
    let dy = gap(a.1, b.1);
    if h == Heuristic::Euclidean {
        let n = COST_SCALE * COST_SCALE * (dx * dx + dy * dy);
        assert(0 <= n) by (nonlinear_arith)
            requires
                n == COST_SCALE * COST_SCALE * (dx * dx + dy * dy),
        ;
        lemma_spec_isqrt(n as nat);
        let r = spec_isqrt(n as nat) as int;
        let bb: int = 2 * COST_SCALE * GAP_LIMIT;
        assert(n < bb * bb) by (nonlinear_arith)
            requires
                n == COST_SCALE * COST_SCALE * (dx * dx + dy * dy),
                0 <= dx <= GAP_LIMIT,
                0 <= dy <= GAP_LIMIT,
                bb == 2 * COST_SCALE * GAP_LIMIT,
        ;
        assert(r <= bb) by (nonlinear_arith)
            requires
                r * r <= n,
                n < bb * bb,
                bb > 0,
                r >= 0,
        ;
    }
}

/// The estimate from `a` to `b` is the estimate from `b` to `a`.
pub proof fn lemma_estimate_symmetric(h: Heuristic, a: Coord, b: Coord)
    ensures
        spec_estimate(h, a, b) == spec_estimate(h, b, a),
{
    assert(gap(a.0, b.0) == gap(b.0, a.0));
    assert(gap(a.1, b.1) == gap(b.1, a.1));
}

/// Every estimate is at most `COST_SCALE` times the Manhattan distance
/// (gaps counted up to `GAP_LIMIT`).
pub proof fn lemma_estimate_below_manhattan(h: Heuristic, a: Coord, b: Coord)
    ensures
        spec_estimate(h, a, b) <= COST_SCALE * (gap(a.0, b.0) + gap(a.1, b.1)),
{
    let dx = gap(a.0, b.0);
    let dy = gap(a.1, b.1);
    if h == Heuristic::Euclidean {
        let n = COST_SCALE * COST_SCALE * (dx * dx + dy * dy);
        assert(0 <= n) by (nonlinear_arith)
            requires
                n == COST_SCALE * COST_SCALE * (dx * dx + dy * dy),
        ;
        lemma_spec_isqrt(n as nat);
        let r = spec_isqrt(n as nat) as int;
        let m = COST_SCALE * (dx + dy);
        assert(n <= m * m) by (nonlinear_arith)
            requires
                n == COST_SCALE * COST_SCALE * (dx * dx + dy * dy),
                m == COST_SCALE * (dx + dy),
                dx >= 0,
                dy >= 0,
        ;
        assert(r <= m) by (nonlinear_arith)
            requires
                r * r <= n,
                n <= m * m,
                m >= 0,
                r >= 0,
        ;
    }
}

/// Moving to an adjacent cell changes each capped gap by at most one.
proof fn lemma_gap_step(u: usize, v: usize, w: usize)
    requires
        v + 1 == w || w + 1 == v || v == w,
    ensures
        gap(u, v) <= gap(u, w) + 1,
        gap(u, w) <= gap(u, v) + 1,
{
}

/// A walk from `a` whose last cell is `b` makes at least as many moves as
/// the (capped) Manhattan distance between them.
proof fn lemma_walk_covers_gaps(p: Seq<Coord>, a: Coord, b: Coord)
    requires
        p.len() >= 1,
        p[0] == a,
        p.last() == b,
        forall|i: int| 0 <= i < p.len() - 1 ==> #[trigger] walks::adjacent(p[i], p[i + 1]),
    ensures
        gap(a.0, b.0) + gap(a.1, b.1) <= p.len() - 1,
    decreases p.len(),
{
    if p.len() > 1 {
        let q = p.drop_last();
        assert forall|i: int| 0 <= i < q.len() - 1 implies #[trigger] walks::adjacent(q[i], q[i + 1]) by {
            assert(walks::adjacent(p[i], p[i + 1]));
        }
        lemma_walk_covers_gaps(q, a, q.last());
        let c = q.last();
        let i = p.len() - 2;
        assert(walks::adjacent(p[i], p[i + 1]));
        lemma_gap_step(a.0, c.0, b.0);
        lemma_gap_step(a.1, c.1, b.1);
    }
}

/// No estimate overestimates: along any walk from `a` to `b` with moves
/// between adjacent cells, the estimate is at most `COST_SCALE` per move.
pub proof fn lemma_estimate_admissible(h: Heuristic, p: Seq<Coord>, a: Coord, b: Coord)
    requires
        walks::is_chain(p, a, b),
    ensures
        spec_estimate(h, a, b) <= COST_SCALE * (p.len() - 1),
{
    lemma_walk_covers_gaps(p, a, b);
    lemma_estimate_below_manhattan(h, a, b);
}

/// The rounded-down Euclidean estimate grows by at most `COST_SCALE` when
/// one gap grows by at most one and the other stays.
proof fn lemma_isqrt_step(p: int, q: int, c: int)
    requires
        0 <= p <= q + 1,
        0 <= q,
        0 <= c,
    ensures
        spec_isqrt((COST_SCALE * COST_SCALE * (p * p + c * c)) as nat) <= spec_isqrt(
            (COST_SCALE * COST_SCALE * (q * q + c * c)) as nat,
        ) + COST_SCALE,
{
    let sc: int = COST_SCALE as int;
    let n1 = sc * sc * (p * p + c * c);
    let n2 = sc * sc * (q * q + c * c);
    assert(0 <= n1 && 0 <= n2) by (nonlinear_arith)
        requires
            n1 == sc * sc * (p * p + c * c),
            n2 == sc * sc * (q * q + c * c),
    ;
    lemma_spec_isqrt(n1 as nat);
    lemma_spec_isqrt(n2 as nat);
    let r1 = spec_isqrt(n1 as nat) as int;
    let r2 = spec_isqrt(n2 as nat) as int;
    if p <= q {
        assert(n1 <= n2) by (nonlinear_arith)
            requires
                n1 == sc * sc * (p * p + c * c),
                n2 == sc * sc * (q * q + c * c),
                0 <= p <= q,
        ;
        assert(r1 <= r2) by (nonlinear_arith)
            requires
                r1 * r1 <= n1,
                n1 <= n2,
                n2 < (r2 + 1) * (r2 + 1),
                r1 >= 0,
                r2 >= 0,
        ;
    } else {
        let rr = r2 + 1;
        assert(rr > sc * q) by (nonlinear_arith)
            requires
                n2 < rr * rr,
                n2 == sc * sc * (q * q + c * c),
                rr >= 1,
                q >= 0,
                sc > 0,
        ;
        assert(n1 < (rr + sc) * (rr + sc)) by (nonlinear_arith)
            requires
                n1 == sc * sc * (p * p + c * c),
                n2 == sc * sc * (q * q + c * c),
                p == q + 1,
                n2 < rr * rr,
                rr > sc * q,
                sc > 0,
        ;
        assert(r1 < rr + sc) by (nonlinear_arith)
            requires
                r1 * r1 <= n1,
                n1 < (rr + sc) * (rr + sc),
                r1 >= 0,
                rr + sc > 0,
        ;
    }
}

/// Every heuristic is consistent: one move changes the estimate by at most
/// the cost of a move.
pub proof fn lemma_estimate_consistent(h: Heuristic, a: Coord, a2: Coord, b: Coord)
    requires
        walks::adjacent(a, a2),
    ensures
        spec_estimate(h, a, b) <= COST_SCALE + spec_estimate(h, a2, b),
{
    lemma_gap_step(b.0, a.0, a2.0);
    lemma_gap_step(b.1, a.1, a2.1);
    assert(gap(a.0, b.0) == gap(b.0, a.0));
    assert(gap(a2.0, b.0) == gap(b.0, a2.0));
    assert(gap(a.1, b.1) == gap(b.1, a.1));
    assert(gap(a2.1, b.1) == gap(b.1, a2.1));
    if h == Heuristic::Euclidean {
        let x1 = gap(a.0, b.0);
        let y1 = gap(a.1, b.1);
        let x2 = gap(a2.0, b.0);
        let y2 = gap(a2.1, b.1);
        if a.1 == a2.1 {
            assert(y1 == y2);
            lemma_isqrt_step(x1, x2, y1);
        } else {
            assert(x1 == x2);
            lemma_isqrt_step(y1, y2, x1);
            assert(x1 * x1 + y1 * y1 == y1 * y1 + x1 * x1);
            assert(x2 * x2 + y2 * y2 == y2 * y2 + x2 * x2);
        }
    }
}

/// The label shown for each heuristic.
pub open spec fn spec_heuristic_label(h: Heuristic) -> Seq<char> {
    match h {
        Heuristic::Manhattan => "Manhattan"@,
        Heuristic::Euclidean => "Euclidean"@,
        Heuristic::Chebyshev => "Chebyshev"@,
        Heuristic::Zero => "Zero (Dijkstra)"@,
    }
}

/// Every heuristic has a label of its own, and none is empty.
pub proof fn lemma_heuristic_labels_distinct(a: Heuristic, b: Heuristic)
    ensures
        spec_heuristic_label(a).len() > 0,
        a != b ==> spec_heuristic_label(a) != spec_heuristic_label(b),
{
    reveal_strlit("Manhattan");
    reveal_strlit("Euclidean");
    reveal_strlit("Chebyshev");
    reveal_strlit("Zero (Dijkstra)");
    if a != b {
        assert(spec_heuristic_label(a).len() != spec_heuristic_label(b).len() || spec_heuristic_label(a)[0]
            != spec_heuristic_label(b)[0]);
    }
}

/// Integer square root by bisection.
fn isqrt(n: u128) -> (r: u128)
    requires
        n < 0x40_0000_0000_0000_0000_0000_0000,
    ensures
        is_isqrt(r as int, n as int),
{
    // Invariant: lo * lo <= n < hi * hi.
    let mut lo: u128 = 0;
    let mut hi: u128 = 0x8_0000_0000_0000;
    assert(n < hi * hi) by (nonlinear_arith)
        requires
            n < 0x40_0000_0000_0000_0000_0000_0000,
            hi == 0x8_0000_0000_0000,
    ;
    while hi - lo > 1
        invariant
            lo < hi <= 0x8_0000_0000_0000,
            lo * lo <= n,
            n < hi * hi,
        decreases hi - lo,
    {
        let mid = lo + (hi - lo) / 2;
        assert(mid * mid <= 0x40_0000_0000_0000_0000_0000_0000) by (nonlinear_arith)
            requires
                mid <= 0x8_0000_0000_0000,
        ;
        if mid * mid <= n {
            lo = mid;
        } else {
            hi = mid;
        }
    }
    assert(hi == lo + 1);
    lo
}

impl Heuristic {
    pub fn label(self) -> (r: &'static str)
        ensures
            r@ == spec_heuristic_label(self),
    {
        match self {
            Heuristic::Manhattan => "Manhattan",
            Heuristic::Euclidean => "Euclidean",
            Heuristic::Chebyshev => "Chebyshev",
            Heuristic::Zero => "Zero (Dijkstra)",
        }
    }

    pub fn all() -> (r: &'static [Heuristic])
        ensures
            r@ == seq![Heuristic::Manhattan, Heuristic::Euclidean, Heuristic::Chebyshev, Heuristic::Zero],
    {
        &[Heuristic::Manhattan, Heuristic::Euclidean, Heuristic::Chebyshev, Heuristic::Zero]
    }

    /// Estimate the remaining cost from `a` to `b`, in units of `COST_SCALE`
    /// per move.
    pub fn estimate(self, a: Coord, b: Coord) -> (r: u128)
        ensures
            r == spec_estimate(self, a, b),
            r <= 2 * COST_SCALE * GAP_LIMIT,
            self == Heuristic::Euclidean ==> is_isqrt(
                r as int,
                COST_SCALE * COST_SCALE * (gap(a.0, b.0) * gap(a.0, b.0) + gap(a.1, b.1) * gap(
                    a.1,
                    b.1,
                )),
            ),
    {
        let dx0 = if a.0 >= b.0 { a.0 - b.0 } else { b.0 - a.0 };
        let dy0 = if a.1 >= b.1 { a.1 - b.1 } else { b.1 - a.1 };
        let dx: u128 = if (dx0 as u128) <= GAP_LIMIT { dx0 as u128 } else { GAP_LIMIT };
        let dy: u128 = if (dy0 as u128) <= GAP_LIMIT { dy0 as u128 } else { GAP_LIMIT };
        assert(dx == gap(a.0, b.0) && dy == gap(a.1, b.1));
        match self {
            Heuristic::Manhattan => COST_SCALE * (dx + dy),
            Heuristic::Chebyshev => COST_SCALE * (if dx >= dy { dx } else { dy }),
            Heuristic::Zero => 0,
            Heuristic::Euclidean => {
                assert(dx * dx + dy * dy <= 0x2_0000_0000_0000_0000_0000) by (nonlinear_arith)
                    requires
                        dx <= 0x100_0000_0000,
                        dy <= 0x100_0000_0000,
                ;
                let n = COST_SCALE * COST_SCALE * (dx * dx + dy * dy);
                let r = isqrt(n);
                proof {
                    lemma_spec_isqrt(n as nat);
                    lemma_isqrt_unique(r as int, spec_isqrt(n as nat) as int, n as int);
                    let b: int = 2 * COST_SCALE * GAP_LIMIT;
                    assert(n < b * b) by (nonlinear_arith)
                        requires
                            n == COST_SCALE * COST_SCALE * (dx * dx + dy * dy),
                            dx <= GAP_LIMIT,
                            dy <= GAP_LIMIT,
                            b == 2 * COST_SCALE * GAP_LIMIT,
                    ;
                    assert(r <= b) by (nonlinear_arith)
                        requires
                            r * r <= n,
                            n < b * b,
                            b > 0,
                    ;
                }
                r
            },
        }
    }
}

/// The integer square root is unique.
pub proof fn lemma_isqrt_unique(r: int, s: int, n: int)
    requires
        is_isqrt(r, n),
        is_isqrt(s, n),
    ensures
        r == s,
{
    let s2 = s;
    if r < s2 {
        assert((r + 1) * (r + 1) <= s2 * s2) by (nonlinear_arith)
            requires
                0 <= r < s2,
        ;
    } else if s2 < r {
        assert((s2 + 1) * (s2 + 1) <= r * r) by (nonlinear_arith)
            requires
                0 <= s2 < r,
        ;
    }
}

impl Default for Heuristic {
    /// Manhattan is selected on first launch.
    fn default() -> (r: Self)
        ensures
            r == Heuristic::Manhattan,
    {
        Heuristic::Manhattan
    }
}

/// Chebyshev counts the longer of the two axis distances: its estimate is at
/// least one move's cost per cell of each (capped) gap and equals one of them.
pub proof fn lemma_chebyshev_is_longer_gap(a: Coord, b: Coord)
    ensures
        spec_estimate(Heuristic::Chebyshev, a, b) >= COST_SCALE * gap(a.0, b.0),
        spec_estimate(Heuristic::Chebyshev, a, b) >= COST_SCALE * gap(a.1, b.1),
        spec_estimate(Heuristic::Chebyshev, a, b) == COST_SCALE * gap(a.0, b.0) || spec_estimate(
            Heuristic::Chebyshev,
            a,
            b,
        ) == COST_SCALE * gap(a.1, b.1),
{
}

/// Within `GAP_LIMIT` cells along each axis, the estimates are the usual
/// distances between the two cells, at `COST_SCALE` per move: Manhattan
/// `|dx| + |dy|`, Chebyshev the larger of `|dx|` and `|dy|`, Zero nothing,
/// and Euclidean `sqrt(dx^2 + dy^2)` rounded down.
pub proof fn lemma_estimate_values(h: Heuristic, a: Coord, b: Coord)
    requires
        a.0 - b.0 <= GAP_LIMIT,
        b.0 - a.0 <= GAP_LIMIT,
        a.1 - b.1 <= GAP_LIMIT,
        b.1 - a.1 <= GAP_LIMIT,
    ensures
        h == Heuristic::Manhattan ==> spec_estimate(h, a, b) == COST_SCALE * ((if a.0 >= b.0 {
            a.0 - b.0
        } else {
            b.0 - a.0
        }) + (if a.1 >= b.1 {
            a.1 - b.1
        } else {
            b.1 - a.1
        })),
        h == Heuristic::Chebyshev ==> {
            &&& spec_estimate(h, a, b) >= COST_SCALE * (a.0 - b.0)
            &&& spec_estimate(h, a, b) >= COST_SCALE * (b.0 - a.0)
            &&& spec_estimate(h, a, b) >= COST_SCALE * (a.1 - b.1)
            &&& spec_estimate(h, a, b) >= COST_SCALE * (b.1 - a.1)
            &&& (spec_estimate(h, a, b) == COST_SCALE * (a.0 - b.0) || spec_estimate(h, a, b) == COST_SCALE * (b.0
                - a.0) || spec_estimate(h, a, b) == COST_SCALE * (a.1 - b.1) || spec_estimate(h, a, b)
                == COST_SCALE * (b.1 - a.1))
        },
        h == Heuristic::Zero ==> spec_estimate(h, a, b) == 0,
        h == Heuristic::Euclidean ==> {
            let e = spec_estimate(h, a, b);
            let n = COST_SCALE * COST_SCALE * ((a.0 - b.0) * (a.0 - b.0) + (a.1 - b.1) * (a.1 - b.1));
            &&& 0 <= e
            &&& e * e <= n
            &&& n < (e + 1) * (e + 1)
        },
{
    let dx = gap(a.0, b.0);
    let dy = gap(a.1, b.1);
    if h == Heuristic::Euclidean {
        let n = COST_SCALE * COST_SCALE * (dx * dx + dy * dy);
        assert(0 <= n) by (nonlinear_arith)
            requires
                n == COST_SCALE * COST_SCALE * (dx * dx + dy * dy),
        ;
        lemma_spec_isqrt(n as nat);
        assert((a.0 - b.0) * (a.0 - b.0) == dx * dx) by (nonlinear_arith)
            requires
                dx == a.0 - b.0 || dx == b.0 - a.0,
        ;
        assert((a.1 - b.1) * (a.1 - b.1) == dy * dy) by (nonlinear_arith)
            requires
                dy == a.1 - b.1 || dy == b.1 - a.1,
        ;
    }
}

} // verus!
