use std::collections::HashMap;

use hangman2::merge::{bound_of, is_exact, merge_caches, MergeStats};
use hangman2::solver::disk_cache::entry_bytes;

const EXACT: u32 = 0;
const LOWER: u32 = 1;
const UPPER: u32 = 2;

fn packed(value: u32, letter: u32, bound: u32) -> u32 {
    (bound << 10) | ((letter & 0x1F) << 5) | (value & 0x1F)
}

/// A source with these entries as it is stored.
fn stored_source(entries: &[(u128, u32)]) -> Vec<(Vec<u8>, Vec<u8>)> {
    entries.iter().map(|&(k, v)| entry_bytes(k, v)).collect()
}

fn sorted_entries(dest: &HashMap<u128, u32>) -> Vec<(u128, u32)> {
    let mut out: Vec<(u128, u32)> = dest.iter().map(|(k, v)| (*k, *v)).collect();
    out.sort();
    out
}

#[test]
fn bound_of_recognizes_encoding() {
    assert!(is_exact(packed(5, 0, EXACT)));
    assert!(!is_exact(packed(5, 0, LOWER)));
    assert!(!is_exact(packed(5, 0, UPPER)));
    assert_eq!(bound_of(packed(5, 0, LOWER)), LOWER);
    assert_eq!(bound_of(packed(5, 0, UPPER)), UPPER);
}

#[test]
fn merge_single_source_copies_all_entries() {
    let seed = [(1u128, packed(5, 0, EXACT)), (2u128, packed(3, 1, EXACT))];
    let src = stored_source(&seed);
    let mut dest = HashMap::new();
    let stats = merge_caches(&[src], &mut dest, false, 100);
    assert_eq!(stats.sources_scanned, 1);
    assert_eq!(stats.entries_read, 2);
    assert_eq!(stats.entries_written, 2);
    assert_eq!(stats.exact_preserved, 0);
    assert_eq!(sorted_entries(&dest), seed.to_vec());
}

#[test]
fn merge_multiple_sources_takes_union() {
    let s1 = stored_source(&[(1, packed(5, 0, EXACT)), (2, packed(3, 0, EXACT))]);
    let s2 = stored_source(&[(3, packed(7, 2, EXACT)), (4, packed(0, 1, EXACT))]);
    let mut dest = HashMap::new();
    let stats = merge_caches(&[s1, s2], &mut dest, false, 100);
    assert_eq!(stats.sources_scanned, 2);
    assert_eq!(stats.entries_read, 4);
    assert_eq!(stats.entries_written, 4);
    let out = sorted_entries(&dest);
    assert_eq!(out.len(), 4);
    assert_eq!(out.iter().map(|(k, _)| *k).collect::<Vec<_>>(), vec![1, 2, 3, 4]);
}

#[test]
fn duplicate_key_last_write_wins_without_prefer_exact() {
    let s1 = stored_source(&[(1, packed(5, 0, EXACT))]);
    let s2 = stored_source(&[(1, packed(7, 3, EXACT))]);
    let mut dest = HashMap::new();
    merge_caches(&[s1, s2], &mut dest, false, 100);
    assert_eq!(sorted_entries(&dest), vec![(1, packed(7, 3, EXACT))]);
}

#[test]
fn prefer_exact_keeps_dest_exact_over_incoming_bound() {
    let s1 = stored_source(&[(1, packed(5, 0, EXACT))]);
    let s2 = stored_source(&[(1, packed(3, 0, LOWER))]);
    let mut dest = HashMap::new();
    let stats = merge_caches(&[s1, s2], &mut dest, true, 100);
    assert_eq!(stats.exact_preserved, 1);
    assert_eq!(stats.entries_written, 1);
    assert_eq!(sorted_entries(&dest), vec![(1, packed(5, 0, EXACT))]);
}

#[test]
fn prefer_exact_allows_incoming_exact_to_overwrite_bound() {
    let s1 = stored_source(&[(1, packed(3, 0, LOWER))]);
    let s2 = stored_source(&[(1, packed(7, 0, EXACT))]);
    let mut dest = HashMap::new();
    let stats = merge_caches(&[s1, s2], &mut dest, true, 100);
    assert_eq!(stats.exact_preserved, 0);
    assert_eq!(sorted_entries(&dest), vec![(1, packed(7, 0, EXACT))]);
}

#[test]
fn prefer_exact_bound_vs_bound_overwrites_normally() {
    let s1 = stored_source(&[(1, packed(3, 0, LOWER))]);
    let s2 = stored_source(&[(1, packed(4, 0, UPPER))]);
    let mut dest = HashMap::new();
    let stats = merge_caches(&[s1, s2], &mut dest, true, 100);
    assert_eq!(stats.exact_preserved, 0);
    assert_eq!(sorted_entries(&dest), vec![(1, packed(4, 0, UPPER))]);
}

#[test]
fn empty_source_produces_no_writes() {
    let s1 = stored_source(&[]);
    let mut dest = HashMap::new();
    let stats = merge_caches(&[s1], &mut dest, false, 100);
    assert_eq!(stats.entries_read, 0);
    assert_eq!(stats.entries_written, 0);
    assert!(dest.is_empty());
}

#[test]
fn merge_into_populated_dest_merges_rather_than_replaces() {
    let mut dest = HashMap::new();
    dest.insert(10u128, packed(2, 0, EXACT));
    dest.insert(20u128, packed(4, 0, EXACT));
    let src = stored_source(&[(20, packed(9, 0, EXACT)), (30, packed(1, 0, EXACT))]);
    merge_caches(&[src], &mut dest, false, 100);
    let out = sorted_entries(&dest);
    let keys: Vec<u128> = out.iter().map(|(k, _)| *k).collect();
    assert_eq!(keys, vec![10, 20, 30]);
    let v20 = out.iter().find(|(k, _)| *k == 20).unwrap().1;
    assert_eq!(v20, packed(9, 0, EXACT));
}

#[test]
fn batched_writes_produce_same_result_as_single_batch() {
    let entries: Vec<(u128, u32)> = (0..250).map(|i| (i as u128, packed(i as u32 % 26, 0, EXACT))).collect();
    let src = stored_source(&entries);
    let mut dest_small = HashMap::new();
    let mut dest_big = HashMap::new();
    merge_caches(&[src.clone()], &mut dest_small, false, 17);
    merge_caches(&[src], &mut dest_big, false, 100_000);
    assert_eq!(sorted_entries(&dest_small), sorted_entries(&dest_big));
    assert_eq!(sorted_entries(&dest_small).len(), 250);
}

#[test]
fn malformed_entries_are_skipped() {
    let mut src = stored_source(&[(1, packed(5, 0, EXACT))]);
    src.push((vec![1, 2, 3], vec![0; 4]));
    src.push((vec![0; 16], vec![1, 2]));
    let mut dest = HashMap::new();
    let stats = merge_caches(&[src], &mut dest, false, 0);
    assert_eq!(
        stats,
        MergeStats { sources_scanned: 1, entries_read: 1, entries_written: 1, exact_preserved: 0 }
    );
    assert_eq!(MergeStats::default().entries_read, 0);
}

#[test]
fn a_key_that_no_source_holds_keeps_its_entry() {
    for prefer_exact in [false, true] {
        let mut dest = HashMap::new();
        dest.insert(9u128, packed(4, 2, UPPER));
        let source = stored_source(&[(1, packed(5, 0, EXACT)), (2, packed(3, 0, LOWER))]);
        merge_caches(&[source], &mut dest, prefer_exact, 1);
        assert_eq!(dest.get(&9), Some(&packed(4, 2, UPPER)));
        assert_eq!(dest.len(), 3);
    }
}
