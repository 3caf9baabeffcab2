use std::collections::HashSet;

use hangman2::game::letter_bit;
use hangman2::precompute::label::format_label;
use hangman2::precompute::parts::partition_by_letter;
use hangman2::precompute::shard::{in_shard, parse_shard, Choice, FlushCounter, Selection, ShardError};
use hangman2::precompute::walk::{dedup_key, is_cached_exact, PositionWalk, Visit};
use hangman2::solver::memoized::no_disk;
use hangman2::solver::tt::{cache_pack, BOUND_EXACT, BOUND_LOWER};

fn walk_words() -> Vec<Vec<u8>> {
    ["cat", "bat", "hat", "dog", "fog"].iter().map(|s| s.as_bytes().to_vec()).collect()
}

fn all_visits(words: &[Vec<u8>], depth: usize) -> Vec<Visit> {
    let mut walk = PositionWalk::new(words, depth);
    let mut out = Vec::new();
    while let Some(v) = walk.next() {
        out.push(v);
    }
    assert!(walk.next().is_none());
    out
}

#[test]
fn parse_shard_valid() {
    assert_eq!(parse_shard("0/1").unwrap(), (0, 1));
    assert_eq!(parse_shard("0/4").unwrap(), (0, 4));
    assert_eq!(parse_shard("3/4").unwrap(), (3, 4));
    assert_eq!(parse_shard("7/8").unwrap(), (7, 8));
}

#[test]
fn parse_shard_missing_slash() {
    let err = parse_shard("4").unwrap_err().message();
    assert!(err.contains("i/N"), "msg: {err}");
}

#[test]
fn parse_shard_zero_n() {
    let err = parse_shard("0/0").unwrap_err().message();
    assert!(err.contains("N must be"), "msg: {err}");
}

#[test]
fn parse_shard_i_out_of_range() {
    let err = parse_shard("4/4").unwrap_err().message();
    assert!(err.contains("i must be"), "msg: {err}");
    assert!(parse_shard("5/4").is_err());
}

#[test]
fn parse_shard_non_integer() {
    assert!(parse_shard("a/4").is_err());
    assert!(parse_shard("2/b").is_err());
    assert!(parse_shard("-1/4").is_err());
}

#[test]
fn shard_partitions_positions_disjointly() {
    let positions: Vec<usize> = (0..100).collect();
    for n in [1usize, 2, 3, 4, 5, 8, 10] {
        let mut covered: Vec<usize> = Vec::new();
        for i in 0..n {
            for (idx, _) in positions.iter().enumerate() {
                if in_shard(idx, (i, n)) {
                    covered.push(idx);
                }
            }
        }
        covered.sort_unstable();
        let expected: Vec<usize> = (0..100).collect();
        assert_eq!(covered, expected, "n={n}: shards did not cover all positions exactly once");
    }
}

#[test]
fn parse_shard_reports_each_mistake() {
    assert_eq!(parse_shard(""), Err(ShardError::MissingSlash));
    assert_eq!(parse_shard("/4"), Err(ShardError::IndexNotInteger));
    assert_eq!(parse_shard("1/"), Err(ShardError::CountNotInteger));
    assert_eq!(parse_shard("1/2/3"), Err(ShardError::CountNotInteger));
    assert_eq!(parse_shard("+1/+2"), Ok((1, 2)));
    assert_eq!(parse_shard("+/2"), Err(ShardError::IndexNotInteger));
    assert_eq!(parse_shard("99999999999999999999/2"), Err(ShardError::IndexNotInteger));
    assert_eq!(parse_shard("0/00"), Err(ShardError::ZeroCount));
    assert_eq!(parse_shard("3/2"), Err(ShardError::IndexOutOfRange));
    assert!(ShardError::CountNotInteger.message().contains("N not an integer"));
    assert!(ShardError::IndexNotInteger.message().contains("i not an integer"));
}

#[test]
fn selection_goes_by_index_then_shard_then_size() {
    let sel = Selection { only_index: Some(5), shard: (0, 2), max_words: Some(3) };
    assert_eq!(sel.choose_position(4, 1), Choice::OtherIndex);
    assert_eq!(sel.choose_position(5, 1), Choice::OtherShard);
    let sel = Selection { only_index: None, shard: (1, 2), max_words: Some(3) };
    assert_eq!(sel.choose_position(5, 4), Choice::TooLarge);
    assert_eq!(sel.choose_position(5, 3), Choice::Take);
    let sel = Selection { only_index: None, shard: (0, 1), max_words: None };
    assert_eq!(sel.choose_position(7, 1000), Choice::Take);
}

#[test]
fn flushes_come_every_few_positions() {
    let mut c = FlushCounter::new(3);
    assert!(!c.any_pending());
    assert!(!c.solved());
    assert_eq!(c.until_flush(), 2);
    assert!(!c.solved());
    assert!(c.any_pending());
    assert!(c.solved());
    assert!(!c.any_pending());
    let mut every = FlushCounter::new(0);
    assert!(every.solved());
}

#[test]
fn parts_are_ordered_by_size_and_place() {
    let words: Vec<Vec<u8>> = ["ab", "ba", "cd", "ef"].iter().map(|s| s.as_bytes().to_vec()).collect();
    let parts = partition_by_letter(&words, &[0, 1, 2, 3], b'a');
    assert_eq!(parts, vec![(0, vec![2, 3]), (1, vec![0]), (2, vec![1])]);
}

#[test]
fn walk_starts_at_the_root() {
    let words = walk_words();
    let visits = all_visits(&words, 0);
    assert_eq!(visits.len(), 1);
    assert_eq!(format_label(&visits[0]), "d0 root 5");
    assert_eq!(visits[0].indices, vec![0, 1, 2, 3, 4]);
}

#[test]
fn walk_visits_every_key_once() {
    let words = walk_words();
    let visits = all_visits(&words, 2);
    let keys: Vec<u128> = visits[1..].iter().map(|v| dedup_key(&words, &v.indices, v.masked)).collect();
    let distinct: HashSet<u128> = keys.iter().copied().collect();
    assert_eq!(distinct.len(), keys.len());
    for v in &visits[1..] {
        assert!(v.indices.len() > 1);
        assert!((1..=2).contains(&v.depth));
    }
    // Whatever a guess leads to from a position above the last level is there.
    for v in visits.iter().filter(|v| v.depth < 2) {
        for letter in b'a'..=b'z' {
            if v.masked & letter_bit(letter) != 0 {
                continue;
            }
            for (_, part) in partition_by_letter(&words, &v.indices, letter) {
                if part.len() > 1 {
                    assert!(distinct.contains(&dedup_key(&words, &part, v.masked | letter_bit(letter))));
                }
            }
        }
    }
}

#[test]
fn walk_is_the_same_every_time() {
    let words = walk_words();
    let a: Vec<String> = all_visits(&words, 3).iter().map(format_label).collect();
    let b: Vec<String> = all_visits(&words, 3).iter().map(format_label).collect();
    assert_eq!(a, b);
}

#[test]
fn labels_name_the_path() {
    let hit = Visit {
        depth: 1,
        path: String::new(),
        letter: b'a',
        pmask: 0x12,
        indices: vec![1, 2, 3],
        masked: letter_bit(b'a'),
    };
    assert_eq!(format_label(&hit), "d1 'a' hit(0x12) 3");
    let miss = Visit { pmask: 0, ..hit.clone() };
    assert_eq!(format_label(&miss), "d1 'a' miss(0x0) 3");
    let deep = Visit { depth: 2, path: "'e'miss".to_string(), letter: b's', pmask: 1, ..hit };
    assert_eq!(format_label(&deep), "d2 'e'miss+'s'hit 3");
}

#[test]
fn walk_paths_grow_with_each_guess() {
    let words = walk_words();
    let visits = all_visits(&words, 2);
    assert_eq!(visits[1].depth, 1);
    assert_eq!(visits[1].path, "");
    let second = visits.iter().find(|v| v.depth == 2).unwrap();
    assert_eq!(second.path, "'a'hit");
}

#[test]
fn only_exact_entries_count_as_cached() {
    let words = walk_words();
    let key = dedup_key(&words, &[0, 1, 2], letter_bit(b'a'));
    let exact = |k: u128| if k == key { Some(cache_pack(2, b'c', BOUND_EXACT)) } else { None };
    let bound = |k: u128| if k == key { Some(cache_pack(2, b'c', BOUND_LOWER)) } else { None };
    assert!(is_cached_exact(&words, &[0, 1, 2], letter_bit(b'a'), &exact));
    assert!(!is_cached_exact(&words, &[0, 1, 2], letter_bit(b'a'), &bound));
    assert!(!is_cached_exact(&words, &[0, 1, 2], letter_bit(b'a'), &no_disk));
    assert!(is_cached_exact(&words, &[0], letter_bit(b'a'), &no_disk));
}
