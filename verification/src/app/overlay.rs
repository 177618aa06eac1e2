//! What the canvas overlay draws, decided apart from the drawing: the order
//! of the paths and the colour slot of each.

use vstd::prelude::*;

use crate::solver::walks::Coord;

verus! {

/// Number of colours in the multi-path palette.
pub const PALETTE_LEN: usize = 8;

/// `r` lists the indices of `lens` longest first, equal lengths in list
/// order.
pub open spec fn is_draw_order(lens: Seq<nat>, r: Seq<usize>) -> bool {
    &&& r.len() == lens.len()
    &&& r.no_duplicates()
    &&& forall|i: int| 0 <= i < r.len() ==> #[trigger] r[i] < lens.len()
    &&& forall|i: int, j: int|
        0 <= i < j < r.len() ==> lens[r[i] as int] > lens[r[j] as int] || (lens[r[i] as int] == lens[r[j] as int]
            && r[i] < r[j])
}

/// A draw order draws every path exactly once, never a shorter path before a
/// longer one, and two paths of one length in their list order.
pub proof fn lemma_draw_order_longest_first(lens: Seq<nat>, r: Seq<usize>)
    requires
        is_draw_order(lens, r),
    ensures
        forall|k: int| 0 <= k < lens.len() ==> #[trigger] r.contains(k as usize),
        forall|i: int, j: int| 0 <= i < j < r.len() ==> lens[r[i] as int] >= lens[r[j] as int],
        forall|i: int, j: int|
            0 <= i < r.len() && 0 <= j < r.len() && lens[r[i] as int] == lens[r[j] as int] && r[i] < r[j] ==> i < j,
{
    // Distinct indices below `lens.len()`, as many as there are paths: all of them.
    let m = r.map_values(|v: usize| v as int);
    assert forall|i: int, j: int| 0 <= i < m.len() && 0 <= j < m.len() && i != j implies m[i] != m[j] by {
        assert(r[i] != r[j]);
    }
    assert(m.no_duplicates());
    m.unique_seq_to_set();
    vstd::set_lib::lemma_int_range(0, lens.len() as int);
    assert(m.to_set().subset_of(vstd::set_lib::set_int_range(0, lens.len() as int))) by {
        assert forall|v: int| m.to_set().contains(v) implies vstd::set_lib::set_int_range(0, lens.len() as int).contains(
            v,
        ) by {
            let i = choose|i: int| 0 <= i < m.len() && m[i] == v;
            assert(r[i] < lens.len());
        }
    }
    vstd::set_lib::lemma_subset_equality(m.to_set(), vstd::set_lib::set_int_range(0, lens.len() as int));
    assert forall|k: int| 0 <= k < lens.len() implies #[trigger] r.contains(k as usize) by {
        assert(vstd::set_lib::set_int_range(0, lens.len() as int).contains(k));
        assert(m.to_set().contains(k));
        let i = choose|i: int| 0 <= i < m.len() && m[i] == k;
        assert(r[i] == k as usize);
    }
    assert forall|i: int, j: int|
        0 <= i < r.len() && 0 <= j < r.len() && lens[r[i] as int] == lens[r[j] as int] && r[i] < r[j] implies i < j by {
        if j < i {
            assert(lens[r[j] as int] > lens[r[i] as int] || r[j] < r[i]);
        }
    }
}

/// The lengths of the paths.
pub open spec fn path_lens(paths: Seq<Vec<Coord>>) -> Seq<nat> {
    paths.map_values(|p: Vec<Coord>| p@.len())
}

/// The order in which the paths are drawn: longest first, ties in list
/// order, so the shortest route ends up on top.
pub fn draw_order(paths: &[Vec<Coord>]) -> (r: Vec<usize>)
    ensures
        is_draw_order(path_lens(paths@), r@),
{
    let ghost lens = path_lens(paths@);
    let n = paths.len();
    let mut r: Vec<usize> = Vec::new();
    let mut k: usize = 0;
    while k < n
        invariant
            n == paths@.len(),
            lens == path_lens(paths@),
            k <= n,
            r@.len() == k,
            r@.no_duplicates(),
            forall|i: int| 0 <= i < r@.len() ==> #[trigger] r@[i] < k,
            forall|i: int, j: int|
                0 <= i < j < r@.len() ==> lens[r@[i] as int] > lens[r@[j] as int] || (lens[r@[i] as int]
                    == lens[r@[j] as int] && r@[i] < r@[j]),
        decreases n - k,
    {
        let len_k = paths[k].len();
        // Insert `k` after every entry at least as long.
        let mut p: usize = 0;
        while p < r.len() && paths[r[p]].len() >= len_k
            invariant
                n == paths@.len(),
                lens == path_lens(paths@),
                k < n,
                len_k == lens[k as int],
                p <= r@.len(),
                forall|i: int| 0 <= i < r@.len() ==> #[trigger] r@[i] < k,
                forall|i: int| 0 <= i < p ==> lens[#[trigger] r@[i] as int] >= len_k,
            decreases r@.len() - p,
        {
            p = p + 1;
        }
        let ghost old_r = r@;
        proof {
            assert forall|i: int| p <= i < old_r.len() implies lens[#[trigger] old_r[i] as int] < len_k by {
                if p < old_r.len() {
                    assert(lens[old_r[p as int] as int] < len_k);
                    if i > p {
                        assert(lens[old_r[p as int] as int] >= lens[old_r[i] as int]);
                    }
                }
            }
        }
        r.insert(p, k);
        proof {
            assert forall|i: int| 0 <= i < r@.len() implies #[trigger] r@[i] < k + 1 by {
                if i < p {
                    assert(r@[i] == old_r[i]);
                } else if i > p {
                    assert(r@[i] == old_r[i - 1]);
                }
            }
            assert forall|i: int, j: int| 0 <= i < r@.len() && 0 <= j < r@.len() && i != j implies r@[i] != r@[j] by {
                if i != p && j != p {
                    let oi = if i < p { i } else { i - 1 };
                    let oj = if j < p { j } else { j - 1 };
                    assert(r@[i] == old_r[oi] && r@[j] == old_r[oj]);
                } else if i == p {
                    let oj = if j < p { j } else { j - 1 };
                    assert(r@[j] == old_r[oj]);
                } else {
                    let oi = if i < p { i } else { i - 1 };
                    assert(r@[i] == old_r[oi]);
                }
            }
            assert forall|i: int, j: int|
                0 <= i < j < r@.len() implies lens[r@[i] as int] > lens[r@[j] as int] || (lens[r@[i] as int]
                == lens[r@[j] as int] && r@[i] < r@[j]) by {
                if j < p {
                    assert(r@[i] == old_r[i] && r@[j] == old_r[j]);
                } else if j == p {
                    assert(r@[i] == old_r[i]);
                    assert(lens[old_r[i] as int] >= len_k);
                } else if i < p {
                    assert(r@[i] == old_r[i] && r@[j] == old_r[j - 1]);
                } else if i == p {
                    assert(r@[j] == old_r[j - 1]);
                    assert(lens[old_r[j - 1] as int] < len_k);
                } else {
                    assert(r@[i] == old_r[i - 1] && r@[j] == old_r[j - 1]);
                }
            }
        }
        k = k + 1;
    }
    r
}

/// The palette slot of path number `idx` among `n` paths: none when there is
/// a single path (it takes the plain path colour), else the colours in turn.
pub fn palette_slot(idx: usize, n: usize) -> (r: Option<usize>)
    ensures
        r == (if n <= 1 {
            None
        } else {
            Some((idx % PALETTE_LEN) as usize)
        }),
{
    if n <= 1 {
        None
    } else {
        Some(idx % PALETTE_LEN)
    }
}

} // verus!
