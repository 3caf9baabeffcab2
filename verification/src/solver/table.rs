//! The hash tables that the solvers keep, as maps.
//!
//! The tables come from the `dashmap` and `rustc_hash` crates. What is said of
//! their methods here is taken from those crates, not proved.
use dashmap::DashMap;
use rustc_hash::{FxBuildHasher, FxHashMap, FxHashSet};
use vstd::prelude::*;

verus! {

/// `dashmap::DashMap`, a hash map.
#[verifier::external_type_specification]
#[verifier::external_body]
#[verifier::reject_recursive_types(K)]
#[verifier::reject_recursive_types(V)]
#[verifier::reject_recursive_types(S)]
pub struct ExDashMap<K, V, S>(dashmap::DashMap<K, V, S>);

/// `rustc_hash::FxBuildHasher`, the hasher of the `Fx` maps and sets.
#[verifier::external_type_specification]
#[verifier::external_body]
pub struct ExFxBuildHasher(rustc_hash::FxBuildHasher);

/// The entries of a transposition table.
pub uninterp spec fn table_map(m: DashMap<u128, u32>) -> Map<u128, u32>;

/// The entries of a table from quick keys to canonical keys.
pub uninterp spec fn quick_map(m: DashMap<u64, u128>) -> Map<u64, u128>;

/// `DashMap::new`: the new table is empty.
#[verifier::external_body]
pub(crate) fn table_new() -> (m: DashMap<u128, u32>)
    ensures
        table_map(m).dom() == Set::<u128>::empty(),
{
    DashMap::new()
}

/// `DashMap::get`: the value stored under the key, where there is one.
#[verifier::external_body]
pub(crate) fn table_get(m: &DashMap<u128, u32>, key: u128) -> (r: Option<u32>)
    ensures
        r == if table_map(*m).contains_key(key) {
            Some(table_map(*m)[key])
        } else {
            None
        },
{
    m.get(&key).map(|e| *e.value())
}

/// `DashMap::insert`: afterwards the table holds the value under the key, and
/// otherwise what it held before.
#[verifier::external_body]
pub(crate) fn table_insert(m: &mut DashMap<u128, u32>, key: u128, value: u32)
    ensures
        table_map(*final(m)) == table_map(*old(m)).insert(key, value),
{
    m.insert(key, value);
}

/// `DashMap::len`: the number of keys.
#[verifier::external_body]
pub(crate) fn table_len(m: &DashMap<u128, u32>) -> (r: usize)
    ensures
        r == table_map(*m).dom().len(),
{
    m.len()
}

/// `DashMap::clear`: afterwards the table is empty.
#[verifier::external_body]
pub(crate) fn table_clear(m: &mut DashMap<u128, u32>)
    ensures
        table_map(*final(m)).dom() == Set::<u128>::empty(),
{
    m.clear();
}

/// `DashMap::iter`: every entry once, in no particular order.
#[verifier::external_body]
pub(crate) fn table_entries(m: &DashMap<u128, u32>) -> (r: Vec<(u128, u32)>)
    ensures
        forall|i: int|
            0 <= i < r@.len() ==> table_map(*m).contains_key((#[trigger] r@[i]).0) && table_map(
                *m,
            )[r@[i].0] == r@[i].1,
        forall|i: int, j: int| 0 <= i < j < r@.len() ==> (#[trigger] r@[i]).0 != (#[trigger] r@[j]).0,
        forall|key: u128| #[trigger]
            table_map(*m).contains_key(key) ==> exists|i: int| 0 <= i < r@.len() && (#[trigger] r@[i]).0 == key,
{
    m.iter().map(|e| (*e.key(), *e.value())).collect()
}

/// `DashMap::new`: the new table is empty.
#[verifier::external_body]
pub(crate) fn quick_new() -> (m: DashMap<u64, u128>)
    ensures
        quick_map(m).dom() == Set::<u64>::empty(),
{
    DashMap::new()
}

/// `DashMap::get`: the value stored under the key, where there is one.
#[verifier::external_body]
pub(crate) fn quick_get(m: &DashMap<u64, u128>, key: u64) -> (r: Option<u128>)
    ensures
        r == if quick_map(*m).contains_key(key) {
            Some(quick_map(*m)[key])
        } else {
            None
        },
{
    m.get(&key).map(|e| *e.value())
}

/// `DashMap::insert`: afterwards the table holds the value under the key, and
/// otherwise what it held before.
#[verifier::external_body]
pub(crate) fn quick_insert(m: &mut DashMap<u64, u128>, key: u64, value: u128)
    ensures
        quick_map(*final(m)) == quick_map(*old(m)).insert(key, value),
{
    m.insert(key, value);
}

/// `DashMap::len`: the number of keys.
#[verifier::external_body]
pub(crate) fn quick_len(m: &DashMap<u64, u128>) -> (r: usize)
    ensures
        r == quick_map(*m).dom().len(),
{
    m.len()
}

/// `FxHashMap::default`: the new map is empty.
#[verifier::external_body]
pub(crate) fn groups_new() -> (m: FxHashMap<u32, Vec<usize>>)
    ensures
        m@.dom() == Set::<u32>::empty(),
{
    FxHashMap::default()
}

/// `FxHashMap::remove`: takes the value stored under the key out of the map,
/// where there is one.
#[verifier::external_body]
pub(crate) fn groups_take(m: &mut FxHashMap<u32, Vec<usize>>, key: u32) -> (r: Option<Vec<usize>>)
    ensures
        final(m)@ == old(m)@.remove(key),
        r == if old(m)@.contains_key(key) {
            Some(old(m)@[key])
        } else {
            None
        },
{
    m.remove(&key)
}

/// `FxHashMap::insert`: afterwards the map holds the value under the key, and
/// otherwise what it held before.
#[verifier::external_body]
pub(crate) fn groups_insert(m: &mut FxHashMap<u32, Vec<usize>>, key: u32, value: Vec<usize>)
    ensures
        final(m)@ == old(m)@.insert(key, value),
{
    m.insert(key, value);
}

/// `FxHashMap::into_iter`: every entry once, in no particular order.
#[verifier::external_body]
pub(crate) fn groups_into_vec(m: FxHashMap<u32, Vec<usize>>) -> (r: Vec<(u32, Vec<usize>)>)
    ensures
        forall|i: int|
            0 <= i < r@.len() ==> m@.contains_key((#[trigger] r@[i]).0) && m@[r@[i].0] == r@[i].1,
        forall|i: int, j: int| 0 <= i < j < r@.len() ==> (#[trigger] r@[i]).0 != (#[trigger] r@[j]).0,
        forall|key: u32| #[trigger]
            m@.contains_key(key) ==> exists|i: int| 0 <= i < r@.len() && (#[trigger] r@[i]).0 == key,
{
    m.into_iter().collect()
}

/// `FxHashSet::default`: the new set is empty.
#[verifier::external_body]
pub(crate) fn seen_new() -> (m: FxHashSet<u128>)
    ensures
        m@ == Set::<u128>::empty(),
{
    FxHashSet::default()
}

/// `FxHashSet::insert`: adds the key, and tells whether it was new.
#[verifier::external_body]
pub(crate) fn seen_insert(m: &mut FxHashSet<u128>, key: u128) -> (fresh: bool)
    ensures
        final(m)@ == old(m)@.insert(key),
        fresh == !old(m)@.contains(key),
{
    m.insert(key)
}

/// The entries of a map from patterns to node numbers.
pub uninterp spec fn pattern_ids(m: FxHashMap<Vec<u8>, usize>) -> Map<Seq<u8>, usize>;

/// `FxHashMap::default`: the new map is empty.
#[verifier::external_body]
pub(crate) fn ids_new() -> (m: FxHashMap<Vec<u8>, usize>)
    ensures
        pattern_ids(m).dom() == Set::<Seq<u8>>::empty(),
{
    FxHashMap::default()
}

/// `FxHashMap::get`: the number stored under the bytes, where there is one.
#[verifier::external_body]
pub(crate) fn ids_get(m: &FxHashMap<Vec<u8>, usize>, key: &[u8]) -> (r: Option<usize>)
    ensures
        r == if pattern_ids(*m).contains_key(key@) {
            Some(pattern_ids(*m)[key@])
        } else {
            None
        },
{
    m.get(key).copied()
}

/// `FxHashMap::insert`: afterwards the map holds the number under the bytes, and
/// otherwise what it held before.
#[verifier::external_body]
pub(crate) fn ids_insert(m: &mut FxHashMap<Vec<u8>, usize>, key: Vec<u8>, value: usize)
    ensures
        pattern_ids(*final(m)) == pattern_ids(*old(m)).insert(key@, value),
{
    m.insert(key, value);
}

} // verus!
