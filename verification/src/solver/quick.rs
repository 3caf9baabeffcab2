//! The keys of positions that have been seen, found by a cheap hash.
use dashmap::DashMap;
use vstd::prelude::*;

use crate::game::letters::LetterSet;
use crate::solver::table::{quick_get, quick_insert, quick_map, quick_new};

verus! {

/// A position with its key in the transposition table.
pub struct SeenPosition {
    pub(crate) indices: Vec<usize>,
    pub(crate) masked: LetterSet,
    pub(crate) key: u128,
}

impl View for SeenPosition {
    type V = (Seq<usize>, u32, u128);

    closed spec fn view(&self) -> (Seq<usize>, u32, u128) {
        (self.indices@, self.masked, self.key)
    }
}

/// Positions with their keys, and the place of each by a hash. Two positions may have
/// one hash, so what a place holds is compared with what is asked for.
pub struct QuickTable {
    places: DashMap<u64, u128>,
    positions: Vec<SeenPosition>,
}

impl View for QuickTable {
    type V = Seq<(Seq<usize>, u32, u128)>;

    /// The positions recorded, in order.
    closed spec fn view(&self) -> Seq<(Seq<usize>, u32, u128)> {
        Seq::new(self.positions@.len(), |t: int| self.positions@[t]@)
    }
}

impl QuickTable {
    /// The place that the hash leads to.
    pub closed spec fn place(&self, hash: u64) -> Option<u128> {
        if quick_map(self.places).contains_key(hash) {
            Some(quick_map(self.places)[hash])
        } else {
            None
        }
    }

    /// The key recorded for a position, where the hash leads to it.
    pub open spec fn recalls(&self, hash: u64, idx: Seq<usize>, masked: u32) -> Option<u128> {
        match self.place(hash) {
            Some(p) => if p < self@.len() && self@[p as int].0 == idx && self@[p as int].1 == masked {
                Some(self@[p as int].2)
            } else {
                None
            },
            None => None,
        }
    }

    /// An empty table.
    pub fn new() -> (r: Self)
        ensures
            r@.len() == 0,
            forall|hash: u64| #[trigger] r.place(hash) is None,
    {
        QuickTable { places: quick_new(), positions: Vec::new() }
    }

    /// The key of a position, where it is recorded under the hash.
    pub fn get(&self, hash: u64, indices: &[usize], masked: LetterSet) -> (r: Option<u128>)
        ensures
            r == self.recalls(hash, indices@, masked),
    {
        match quick_get(&self.places, hash) {
            None => None,
            Some(p) => {
                if p >= self.positions.len() as u128 {
                    return None;
                }
                let seen = &self.positions[p as usize];
                assert(self@[p as int] == seen@);
                if seen.masked == masked && same_indices(seen.indices.as_slice(), indices) {
                    Some(seen.key)
                } else {
                    None
                }
            },
        }
    }

    /// Record the key of a position; the hash leads to it from now on.
    pub fn insert(&mut self, hash: u64, indices: &[usize], masked: LetterSet, key: u128)
        ensures
            final(self)@ == old(self)@.push((indices@, masked, key)),
            final(self).place(hash) == Some(old(self)@.len() as u128),
            forall|other: u64| other != hash ==> #[trigger] final(self).place(other) == old(self).place(other),
            final(self).recalls(hash, indices@, masked) == Some(key),
    {
        let place: u128 = self.positions.len() as u128;
        let ghost before = self@;
        quick_insert(&mut self.places, hash, place);
        let copy = copy_indices(indices);
        self.positions.push(SeenPosition { indices: copy, masked, key });
        assert(self@ =~= before.push((indices@, masked, key)));
    }
}

/// Whether two lists are the same.
fn same_indices(a: &[usize], b: &[usize]) -> (r: bool)
    ensures
        r == (a@ == b@),
{
    if a.len() != b.len() {
        return false;
    }
    let mut i: usize = 0;
    while i < a.len()
        invariant
            i <= a@.len(),
            a@.len() == b@.len(),
            forall|j: int| 0 <= j < i ==> a@[j] == b@[j],
        decreases a@.len() - i,
    {
        if a[i] != b[i] {
            return false;
        }
        i += 1;
    }
    assert(a@ =~= b@);
    true
}

fn copy_indices(a: &[usize]) -> (r: Vec<usize>)
    ensures
        r@ == a@,
{
    let mut r: Vec<usize> = Vec::new();
    let mut i: usize = 0;
    while i < a.len()
        invariant
            i <= a@.len(),
            r@ == a@.take(i as int),
        decreases a@.len() - i,
    {
        r.push(a[i]);
        i += 1;
        assert(a@.take(i as int) =~= a@.take(i - 1).push(a@[i - 1]));
    }
    assert(a@.take(i as int) =~= a@);
    r
}

} // verus!
