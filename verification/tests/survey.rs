use std::collections::HashSet;

use hangman2::game::letter_bit;
use hangman2::solver::memoized::{no_disk, MemoizedSolver};
use hangman2::survey::bitvec::BitVec;
use hangman2::survey::coverage::{bound_name, coverage, size_stats};
use hangman2::survey::depth::{hash_state, DepthWalk};
use hangman2::survey::levels::{next_level, no_keys, note_key, root_position};

fn survey_words() -> Vec<Vec<u8>> {
    ["cat", "bat", "hat", "dog", "fog"].iter().map(|s| s.as_bytes().to_vec()).collect()
}

#[test]
fn bit_vectors_list_their_members() {
    let v = BitVec::from_indices(&[3, 64, 1, 129], 130);
    assert_eq!(v.to_indices(), vec![1, 3, 64, 129]);
    assert_eq!(v.len(), 4);
    assert_eq!(v.mem_bytes(), 3 * 8 + 4);
    let empty = BitVec::new(65);
    assert!(empty.to_indices().is_empty());
    assert_eq!(empty.mem_bytes(), 2 * 8 + 4);
}

#[test]
fn levels_hold_new_positions_only() {
    let words = survey_words();
    let mut seen = no_keys();
    let (root, key) = root_position(&words);
    assert!(note_key(&mut seen, key));
    assert!(!note_key(&mut seen, key));
    assert_eq!(root.words.to_indices(), vec![0, 1, 2, 3, 4]);
    let level = vec![root];
    let first = next_level(&words, &level, &mut seen);
    assert!(!first.is_empty());
    for p in &first {
        assert!(p.words.len() > 1);
    }
    assert_eq!(seen.len(), 1 + first.len());
    let second = next_level(&words, &first, &mut seen);
    assert_eq!(seen.len(), 1 + first.len() + second.len());
    // Expanding a level again finds nothing new.
    assert!(next_level(&words, &level, &mut seen).is_empty());
}

#[test]
fn coverage_counts_every_kind() {
    let words = survey_words();
    let mut solver = MemoizedSolver::new();
    solver.warm_serving_cache(&words);
    let (root, _) = root_position(&words);
    let level = vec![root];
    let find = |k: u128| solver.cache().get(&k);
    let (c, missing) = coverage(&words, &level, &find);
    assert_eq!((c.exact, c.lower, c.upper, c.miss), (1, 0, 0, 0));
    assert_eq!(c.max_words, 5);
    assert!(missing.is_empty());
    let (c, missing) = coverage(&words, &level, &no_disk);
    assert_eq!(c.miss, 1);
    assert_eq!(missing, vec![(5, 0)]);
    assert_eq!(["EXACT", "LOWER", "UPPER", "?"], [bound_name(0), bound_name(1), bound_name(2), bound_name(3)]);
}

#[test]
fn statistics_of_sizes() {
    assert_eq!(size_stats(&vec![5, 1, 4, 2, 3]), (5, 5, 3));
    assert_eq!(size_stats(&vec![7]), (7, 7, 7));
    assert_eq!(size_stats(&(1..=10).collect()), (10, 10, 6));
}

#[test]
fn positions_at_a_depth_are_distinct() {
    let words = survey_words();
    let mut walk = DepthWalk::new(&words, 2);
    let mut hashes = HashSet::new();
    let mut count = 0;
    while let Some(leaf) = walk.next() {
        assert!(leaf.indices.len() > 1);
        assert_eq!(leaf.masked.count_ones(), 2);
        assert!(hashes.insert(hash_state(&leaf.indices, leaf.masked)));
        count += 1;
    }
    assert!(count > 0);
    let mut root = DepthWalk::new(&words, 0);
    let leaf = root.next().unwrap();
    assert_eq!((leaf.path.as_str(), leaf.masked), ("d0 root", 0));
    assert!(root.next().is_none());
}

#[test]
fn paths_at_a_depth_name_every_guess() {
    let words = survey_words();
    let mut walk = DepthWalk::new(&words, 2);
    let first = walk.next().unwrap();
    assert_eq!(first.path, "'a'hit+'b'miss");
    assert_eq!(first.masked, letter_bit(b'a') | letter_bit(b'b'));
    assert_eq!(first.indices, vec![0, 2]);
}

#[test]
fn no_position_at_a_depth_is_missed() {
    let words = survey_words();
    let mut walk = DepthWalk::new(&words, 2);
    let mut hashes = HashSet::new();
    while let Some(leaf) = walk.next() {
        hashes.insert(hash_state(&leaf.indices, leaf.masked));
    }
    assert!(hashes.contains(&hash_state(&[0, 1, 2], letter_bit(b'a') | letter_bit(b'z'))));
    assert!(hashes.contains(&hash_state(&[3, 4], letter_bit(b'g') | letter_bit(b'o'))));
    assert!(hashes.contains(&hash_state(&[1, 2], letter_bit(b'c') | letter_bit(b't'))));
}
