//! A map from grid coordinates to values, held in a `HashMap` keyed by an
//! integer that encodes the cell.

use vstd::prelude::*;

use super::walks::Coord;

verus! {

broadcast use vstd::std_specs::hash::group_hash_axioms;

/// The integer key of cell `c`: its column in the high 64 bits, its row in
/// the low ones.
pub open spec fn key_of(c: Coord) -> u128 {
    (c.0 * 0x1_0000_0000_0000_0000 + c.1) as u128
}

/// Distinct cells have distinct keys.
proof fn lemma_key_injective(a: Coord, b: Coord)
    ensures
        key_of(a) == key_of(b) ==> a == b,
{
    let m: int = 0x1_0000_0000_0000_0000;
    assert(a.0 * m + a.1 < 0x1_0000_0000_0000_0000_0000_0000_0000_0000) by (nonlinear_arith)
        requires
            a.0 < m,
            a.1 < m,
            m == 0x1_0000_0000_0000_0000,
    ;
    assert(b.0 * m + b.1 < 0x1_0000_0000_0000_0000_0000_0000_0000_0000) by (nonlinear_arith)
        requires
            b.0 < m,
            b.1 < m,
            m == 0x1_0000_0000_0000_0000,
    ;
    if key_of(a) == key_of(b) {
        assert(a.0 * m + a.1 == b.0 * m + b.1);
        assert(a.0 == b.0 && a.1 == b.1) by (nonlinear_arith)
            requires
                a.0 * m + a.1 == b.0 * m + b.1,
                0 <= a.1 < m,
                0 <= b.1 < m,
                0 <= a.0,
                0 <= b.0,
        ;
    }
}

/// The key of `c`, computed.
fn key_exec(c: Coord) -> (k: u128)
    ensures
        k == key_of(c),
{
    assert((c.0 as u128) * 0x1_0000_0000_0000_0000u128 + (c.1 as u128) <= u128::MAX) by (nonlinear_arith)
        requires
            c.0 <= u64::MAX,
            c.1 <= u64::MAX,
    ;
    (c.0 as u128) * 0x1_0000_0000_0000_0000u128 + (c.1 as u128)
}

pub struct CoordMap<V> {
    cells: std::collections::HashMap<u128, V>,
}

impl<V> CoordMap<V> {
    /// The map held.
    pub closed spec fn view(&self) -> Map<Coord, V> {
        Map::new(|c: Coord| self.cells@.contains_key(key_of(c)), |c: Coord| self.cells@[key_of(c)])
    }
}

impl<V: Copy> CoordMap<V> {
    pub fn new() -> (m: Self)
        ensures
            m.view() == Map::<Coord, V>::empty(),
    {
        let m = CoordMap { cells: std::collections::HashMap::new() };
        assert(m.view() =~= Map::<Coord, V>::empty());
        m
    }

    /// The value stored for `k`, if any.
    pub fn get(&self, k: Coord) -> (r: Option<V>)
        ensures
            r == (if self.view().contains_key(k) {
                Some(self.view()[k])
            } else {
                None
            }),
    {
        let key = key_exec(k);
        match self.cells.get(&key) {
            Some(v) => Some(*v),
            None => None,
        }
    }

    /// Store `v` for `k`, replacing any earlier value.
    pub fn insert(&mut self, k: Coord, v: V)
        ensures
            final(self).view() == old(self).view().insert(k, v),
    {
        let key = key_exec(k);
        self.cells.insert(key, v);
        proof {
            assert forall|c: Coord| key_of(c) == key_of(k) implies c == k by {
                lemma_key_injective(c, k);
            }
            assert(self.view() =~= old(self).view().insert(k, v));
        }
    }
}

} // verus!
