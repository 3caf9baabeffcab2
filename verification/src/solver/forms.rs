//! The canonical forms behind the keys of a transposition table.
use std::collections::HashMap;

use vstd::prelude::*;

verus! {

/// One canonical form for each key. Two forms may have one key, so the form is compared
/// before what a table holds under the key is believed.
pub struct FormTable {
    forms: HashMap<u128, Vec<u8>>,
}

impl View for FormTable {
    type V = Map<u128, Seq<u8>>;

    closed spec fn view(&self) -> Map<u128, Seq<u8>> {
        self.forms@.map_values(|form: Vec<u8>| form@)
    }
}

/// What was recorded stays as it was.
pub open spec fn forms_kept(before: Map<u128, Seq<u8>>, after: Map<u128, Seq<u8>>) -> bool {
    forall|key: u128| #[trigger] before.contains_key(key) ==> after.contains_key(key) && after[key] == before[key]
}

impl FormTable {
    /// No forms yet.
    pub fn new() -> (r: Self)
        ensures
            r@ == Map::<u128, Seq<u8>>::empty(),
    {
        broadcast use vstd::std_specs::hash::group_hash_axioms;

        let r = FormTable { forms: HashMap::new() };
        assert(r@ =~= Map::<u128, Seq<u8>>::empty());
        r
    }

    /// The form recorded for a key.
    pub fn get(&self, key: u128) -> (r: Option<&Vec<u8>>)
        ensures
            r is Some == self@.contains_key(key),
            r matches Some(form) ==> form@ == self@[key],
    {
        broadcast use vstd::std_specs::hash::group_hash_axioms;

        self.forms.get(&key)
    }

    /// Record the form for a key, in place of any other.
    pub fn put(&mut self, key: u128, form: &Vec<u8>)
        ensures
            final(self)@ == old(self)@.insert(key, form@),
    {
        broadcast use vstd::std_specs::hash::group_hash_axioms;

        let ghost before = self@;
        let copy: Vec<u8> = form.clone();
        assert(copy@ =~= form@);
        self.forms.insert(key, copy);
        assert(self@ =~= before.insert(key, form@));
    }

    /// Record the form for a key that has none. Returns whether the key belongs to the
    /// form.
    pub fn accept(&mut self, key: u128, form: &Vec<u8>) -> (r: bool)
        ensures
            r == (!old(self)@.contains_key(key) || old(self)@[key] == form@),
            final(self)@ == if old(self)@.contains_key(key) {
                old(self)@
            } else {
                old(self)@.insert(key, form@)
            },
            forms_kept(old(self)@, final(self)@),
    {
        let known: Option<bool> = match self.get(key) {
            Some(other) => Some(same_bytes(other, form)),
            None => None,
        };
        match known {
            Some(same) => same,
            None => {
                self.put(key, form);
                true
            },
        }
    }

    /// Take the form for a key over from another table.
    pub fn take_over(&mut self, other: &FormTable, key: u128)
        ensures
            final(self)@ == if other@.contains_key(key) {
                old(self)@.insert(key, other@[key])
            } else {
                old(self)@
            },
    {
        if let Some(form) = other.get(key) {
            self.put(key, form);
        }
    }
}

/// Whether two byte sequences are the same.
fn same_bytes(a: &Vec<u8>, b: &Vec<u8>) -> (r: bool)
    ensures
        r == (a@ == b@),
{
    if a.len() != b.len() {
        return false;
    }
    let mut i: usize = 0;
    while i < a.len()
        invariant
            i <= a@.len(),
            a@.len() == b@.len(),
            forall|j: int| 0 <= j < i ==> a@[j] == b@[j],
        decreases a@.len() - i,
    {
        if a[i] != b[i] {
            return false;
        }
        i += 1;
    }
    assert(a@ =~= b@);
    true
}

} // verus!
