//! Caller-owned per-cell values.
//!
//! A `CellAttributes` maps hex cells to arbitrary values.  It may cover any
//! subset of a grid's cells; searches treat a cell without an entry as
//! carrying no data and therefore impassable.  The grid itself never holds
//! per-cell values: grid structure and cell data stay two independent
//! entities.

use std::collections::HashMap;
use vstd::prelude::*;

verus! {

broadcast use vstd::std_specs::hash::group_hash_axioms;

use crate::hex_cell::HexCell;

/// The injective packing of a cell's two 32-bit coordinates into one 64-bit
/// map key: each coordinate, shifted to be nonnegative, occupies one half.
pub open spec fn cell_key(c: HexCell) -> u64 {
    ((c.q + 0x8000_0000) * 0x1_0000_0000 + (c.r + 0x8000_0000)) as u64
}

/// Distinct cells pack to distinct keys.
proof fn lemma_cell_key_injective(a: HexCell, b: HexCell)
    requires
        cell_key(a) == cell_key(b),
    ensures
        a == b,
{
    let qa = a.q + 0x8000_0000;
    let ra = a.r + 0x8000_0000;
    let qb = b.q + 0x8000_0000;
    let rb = b.r + 0x8000_0000;
    assert(qa * 0x1_0000_0000 + ra == qb * 0x1_0000_0000 + rb ==> qa == qb && ra == rb)
        by (nonlinear_arith)
        requires
            0 <= ra < 0x1_0000_0000,
            0 <= rb < 0x1_0000_0000,
    ;
}

/// A sparse mapping from hex cells to values of type `T`.
pub struct CellAttributes<T> {
    map: HashMap<u64, T>,
}

impl<T> View for CellAttributes<T> {
    type V = Map<HexCell, T>;

    closed spec fn view(&self) -> Map<HexCell, T> {
        Map::new(
            |c: HexCell| self.map@.contains_key(cell_key(c)),
            |c: HexCell| self.map@[cell_key(c)],
        )
    }
}

impl<T> CellAttributes<T> {
    /// Builds an empty mapping: no cell carries a value.
    pub fn new() -> (attrs: Self)
        ensures
            attrs@ == Map::<HexCell, T>::empty(),
    {
        let attrs = CellAttributes { map: HashMap::new() };
        proof {
            assert(attrs@ =~= Map::<HexCell, T>::empty());
        }
        attrs
    }

    /// Sets the value of `cell`, replacing any previous one.
    pub fn insert(&mut self, cell: HexCell, value: T)
        ensures
            final(self)@ == old(self)@.insert(cell, value),
    {
        self.map.insert(cell_key_of(&cell), value);
        proof {
            assert forall|c: HexCell| #[trigger] self@.contains_key(c) implies old(
                self,
            )@.insert(cell, value).contains_key(c) by {
                if cell_key(c) == cell_key(cell) {
                    lemma_cell_key_injective(c, cell);
                }
            }
            assert(self@ =~= old(self)@.insert(cell, value));
        }
    }

    /// The value of `cell`, if it has one.
    pub fn get(&self, cell: &HexCell) -> (r: Option<&T>)
        ensures
            match r {
                Some(v) => self@.contains_key(*cell) && *v == self@[*cell],
                None => !self@.contains_key(*cell),
            },
    {
        self.map.get(&cell_key_of(cell))
    }

    /// Whether `cell` has a value.
    pub fn contains_cell(&self, cell: &HexCell) -> (b: bool)
        ensures
            b == self@.contains_key(*cell),
    {
        self.map.contains_key(&cell_key_of(cell))
    }
}

/// The executable form of [`cell_key`].
fn cell_key_of(cell: &HexCell) -> (k: u64)
    ensures
        k == cell_key(*cell),
{
    let hi: u64 = (cell.q as i64 + 0x8000_0000) as u64;
    let lo: u64 = (cell.r as i64 + 0x8000_0000) as u64;
    hi * 0x1_0000_0000 + lo
}

} // verus!
