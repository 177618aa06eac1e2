//! Whole-grid helpers: comparison and copying.

use vstd::prelude::*;

use super::cell::{self, Cell, MazeGrid};

verus! {

/// Whether two grids hold the same rows.
pub fn grids_equal(a: &MazeGrid, b: &MazeGrid) -> (r: bool)
    ensures
        r == (cell::grid_view(a) == cell::grid_view(b)),
{
    if a.len() != b.len() {
        assert(cell::grid_view(a).len() != cell::grid_view(b).len());
        return false;
    }
    let mut y: usize = 0;
    while y < a.len()
        invariant
            a@.len() == b@.len(),
            y <= a@.len(),
            forall|j: int| 0 <= j < y ==> #[trigger] a@[j]@ == b@[j]@,
        decreases a@.len() - y,
    {
        let ra = &a[y];
        let rb = &b[y];
        if ra.len() != rb.len() {
            assert(cell::grid_view(a)[y as int] != cell::grid_view(b)[y as int]);
            return false;
        }
        let mut x: usize = 0;
        while x < ra.len()
            invariant
                y < a@.len(),
                a@.len() == b@.len(),
                ra == a@[y as int],
                rb == b@[y as int],
                ra@.len() == rb@.len(),
                x <= ra@.len(),
                forall|i: int| 0 <= i < x ==> ra@[i] == rb@[i],
            decreases ra@.len() - x,
        {
            if ra[x] != rb[x] {
                assert(cell::grid_view(a)[y as int][x as int] != cell::grid_view(b)[y as int][x as int]);
                return false;
            }
            x = x + 1;
        }
        assert(ra@ =~= rb@);
        y = y + 1;
    }
    assert(cell::grid_view(a) =~~= cell::grid_view(b));
    true
}

/// A fresh copy of a grid.
pub fn copy_grid(m: &MazeGrid) -> (r: MazeGrid)
    ensures
        cell::grid_view(&r) == cell::grid_view(m),
{
    let mut out: MazeGrid = Vec::new();
    let mut y: usize = 0;
    while y < m.len()
        invariant
            y <= m@.len(),
            out@.len() == y,
            forall|j: int| 0 <= j < y ==> #[trigger] out@[j]@ == m@[j]@,
        decreases m@.len() - y,
    {
        let row = &m[y];
        let mut copy: Vec<Cell> = Vec::new();
        let mut x: usize = 0;
        while x < row.len()
            invariant
                x <= row@.len(),
                copy@ == row@.take(x as int),
            decreases row@.len() - x,
        {
            copy.push(row[x]);
            assert(copy@ =~= row@.take(x + 1));
            x = x + 1;
        }
        assert(copy@ =~= row@);
        out.push(copy);
        y = y + 1;
    }
    assert(cell::grid_view(&out) =~~= cell::grid_view(m));
    out
}

} // verus!
