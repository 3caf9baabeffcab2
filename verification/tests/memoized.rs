use hangman2::game::letter_bit;
use hangman2::game::letters::pos_mask;
use hangman2::solver::forms::FormTable;
use hangman2::solver::memoized::{no_disk, MemoizedSolver};
use hangman2::solver::naive::NaiveSolver;
use hangman2::solver::serving::{canonical_hash_for_words, decode_tt_entry, fold_required_letters};
use hangman2::solver::tt::{cache_pack, cache_unpack, BOUND_EXACT, BOUND_LOWER};

fn word_list(words: &[&str]) -> Vec<Vec<u8>> {
    words.iter().map(|s| s.as_bytes().to_vec()).collect()
}

fn memoized_and_naive(words: &[&str]) -> u32 {
    let owned = word_list(words);
    let refs: Vec<&[u8]> = owned.iter().map(Vec::as_slice).collect();
    let naive_result = NaiveSolver::solve(&refs, 0);
    let mut solver = MemoizedSolver::new();
    let memo_result = solver.solve(&owned);
    assert_eq!(naive_result, memo_result, "naive={naive_result} != memoized={memo_result} for {words:?}");
    memo_result
}

fn split_by(words: &[Vec<u8>], indices: &[usize], letter: u8) -> Vec<Vec<usize>> {
    let mut parts: Vec<(u32, Vec<usize>)> = Vec::new();
    for &i in indices {
        let mask = pos_mask(&words[i], letter);
        match parts.iter().position(|p| p.0 == mask) {
            Some(at) => parts[at].1.push(i),
            None => parts.push((mask, vec![i])),
        }
    }
    parts.into_iter().map(|p| p.1).collect()
}

#[test]
fn memoized_single_word() {
    assert_eq!(memoized_and_naive(&["cat"]), 0);
}

#[test]
fn memoized_two_words_one_diff() {
    assert_eq!(memoized_and_naive(&["cat", "bat"]), 1);
}

#[test]
fn memoized_three_words() {
    assert_eq!(memoized_and_naive(&["cat", "bat", "hat"]), 2);
}

#[test]
fn memoized_disjoint_words() {
    assert_eq!(memoized_and_naive(&["ab", "cd"]), 1);
}

#[test]
fn memoized_longer_example() {
    assert_eq!(memoized_and_naive(&["abc", "abd", "xyz"]), 1);
}

#[test]
fn memoized_four_words_same_suffix() {
    memoized_and_naive(&["cat", "bat", "hat", "mat"]);
}

#[test]
fn memoized_two_letter_words() {
    memoized_and_naive(&["ab", "ac", "ad", "bc", "bd", "cd"]);
}

#[test]
fn memoized_all_same_structure() {
    memoized_and_naive(&["ba", "ca", "da", "fa", "ga"]);
}

#[test]
fn solve_returns_correct_value() {
    let words = word_list(&["cat", "bat", "hat", "mat"]);
    let mut solver = MemoizedSolver::new();
    let result = solver.solve(&words);
    assert!(result <= 25, "result should be a valid miss count");
}

#[test]
fn two_words_shared_letter_diff_pos() {
    // "ab" and "ba" share both letters at different places: guessing 'a' is a hit
    // either way.
    assert_eq!(memoized_and_naive(&["ab", "ba"]), 0);
}

#[test]
fn two_words_no_shared_letters() {
    assert_eq!(memoized_and_naive(&["ab", "cd"]), 1);
}

#[test]
fn two_words_same_pos_diff_letter() {
    assert_eq!(memoized_and_naive(&["ab", "ac"]), 1);
}

#[test]
fn isomorphic_sets_share_cache() {
    let mut solver = MemoizedSolver::new();
    let r1 = solver.solve(&[b"ab".to_vec(), b"cd".to_vec()]);
    let r2 = solver.solve(&[b"ef".to_vec(), b"gh".to_vec()]);
    assert_eq!(r1, r2);
}

#[test]
fn position_isomorphic_share_cache() {
    // "ab","cd" and "ba","dc" differ only by a column swap.
    let mut solver = MemoizedSolver::new();
    let r1 = solver.solve(&[b"ab".to_vec(), b"cd".to_vec()]);
    let r2 = solver.solve(&[b"ba".to_vec(), b"dc".to_vec()]);
    assert_eq!(r1, r2);
}

#[test]
fn solve_position_smp_stores_exact_entries() {
    let words = word_list(&["cat", "bat", "hat", "mat", "dog", "fog", "log", "hog"]);
    let all_indices: Vec<usize> = (0..words.len()).collect();
    let masked = letter_bit(b'a');
    let partitions = split_by(&words, &all_indices, b'a');
    let mut solver = MemoizedSolver::new();
    for indices in &partitions {
        if indices.len() <= 1 {
            continue;
        }
        solver.solve_position_smp(&words, indices, masked);
    }
    for indices in &partitions {
        if indices.len() <= 1 {
            continue;
        }
        let folded = fold_required_letters(&words, indices, masked);
        let hash = canonical_hash_for_words(&words, indices, folded);
        let packed = solver.cache().get(&hash).expect("root entry should be in cache");
        let entry = decode_tt_entry(packed);
        assert!(
            entry.is_some(),
            "root entry for partition of {} words should be EXACT, got packed={:#x} (bound={})",
            indices.len(),
            packed,
            cache_unpack(packed).2,
        );
    }
}

#[test]
fn solve_position_smp_root_entries_are_exact() {
    let words = word_list(&[
        "cat", "bat", "hat", "mat", "sat", "rat", "fat", "vat", "dog", "fog", "log", "hog", "bog", "cog", "jog", "tog",
    ]);
    let all_indices: Vec<usize> = (0..words.len()).collect();
    for letter in b'a'..=b'z' {
        let masked = letter_bit(letter);
        let partitions = split_by(&words, &all_indices, letter);
        let mut solver = MemoizedSolver::new();
        for indices in &partitions {
            if indices.len() <= 1 {
                continue;
            }
            solver.solve_position_smp(&words, indices, masked);
        }
        for indices in &partitions {
            if indices.len() <= 1 {
                continue;
            }
            let folded = fold_required_letters(&words, indices, masked);
            let hash = canonical_hash_for_words(&words, indices, folded);
            let packed = solver.cache().get(&hash);
            assert!(
                packed.is_some(),
                "no cache entry after solve_position_smp for '{}' partition ({} words)",
                letter as char,
                indices.len(),
            );
            let entry = decode_tt_entry(packed.unwrap());
            assert!(
                entry.is_some(),
                "entry for '{}' partition ({} words) is not EXACT (packed={:#x})",
                letter as char,
                indices.len(),
                packed.unwrap(),
            );
        }
    }
}

#[test]
fn larger_lists_agree_with_plain_recursion() {
    memoized_and_naive(&["cat", "bat", "hat", "mat", "cab", "tab", "tac", "bac"]);
    memoized_and_naive(&["abcd", "abdc", "bacd", "dcba", "efgh", "efhg", "aegh", "bfgh"]);
    memoized_and_naive(&["aab", "aba", "baa", "bba", "bab", "abb", "aaa", "bbb"]);
}

#[test]
fn bounded_solve_reports_more_than_the_budget() {
    let words = word_list(&["cat", "bat", "hat", "mat", "sat"]);
    // The value is 4.
    let mut solver = MemoizedSolver::new();
    assert_eq!(solver.solve_bounded(&words, 10), 4);
    let mut small = MemoizedSolver::new();
    assert!(small.solve_bounded(&words, 2) > 2);
    assert_eq!(small.solve_bounded(&words, 4), 4);
}

#[test]
fn seeded_solver_gives_the_same_value() {
    let words = word_list(&["cat", "bat", "hat", "mat", "cab", "tab"]);
    let mut solver = MemoizedSolver::new();
    let value = solver.solve(&words);
    assert!(solver.cache_size() > 0);
    assert!(solver.hash_calls() > 0);
    let mut warm = MemoizedSolver::new();
    warm.copy_cache_from(&solver);
    assert_eq!(warm.cache_size(), solver.cache_size());
    assert_eq!(warm.solve_bounded(&words, 25), value);
    assert_eq!(solver.entries_to_flush().len(), solver.cache_size());
}

#[test]
fn serving_solver_solves_positions() {
    let words = word_list(&["cat", "bat", "hat", "dog", "fog"]);
    let mut solver = MemoizedSolver::for_serving(words.clone());
    assert_eq!(solver.solve_position(&[0], 0), 0);
    assert_eq!(solver.solve_position(&[0, 1, 2], letter_bit(b'a')), 2);
    assert_eq!(solver.solve_position(&[3, 4], letter_bit(b'a')), 1);
    // A true entry on disk is taken over.
    let indices = [0usize, 1, 2];
    let folded = fold_required_letters(&words, &indices, letter_bit(b'a'));
    let key = canonical_hash_for_words(&words, &indices, folded);
    let entry = cache_pack(2, b'c', BOUND_EXACT);
    let disk = |k: u128| if k == key { Some(entry) } else { None };
    let mut fresh = MemoizedSolver::for_serving(words);
    assert_eq!(fresh.solve_position_with_disk(&indices, letter_bit(b'a'), &disk), 2);
}

#[test]
fn warming_records_an_exact_entry_for_the_root() {
    let words = word_list(&["cat", "bat", "hat", "dog", "fog"]);
    let mut solver = MemoizedSolver::new();
    let solved = solver.warm_serving_cache(&words);
    assert!(solved > 0);
    let all: Vec<usize> = (0..words.len()).collect();
    let folded = fold_required_letters(&words, &all, 0);
    let key = canonical_hash_for_words(&words, &all, folded);
    let packed = solver.cache().get(&key).unwrap();
    let refs: Vec<&[u8]> = words.iter().map(Vec::as_slice).collect();
    assert_eq!(decode_tt_entry(packed).unwrap().value, NaiveSolver::solve(&refs, 0));
}

#[test]
fn evicting_forgets_what_serving_found() {
    let words = word_list(&["cat", "bat", "hat", "mat", "dog"]);
    let mut solver = MemoizedSolver::for_serving(words.clone());
    let all: Vec<usize> = (0..words.len()).collect();
    let value = solver.solve_position(&all, 0);
    assert!(!solver.entries_to_flush().is_empty());
    assert!(solver.evict());
    assert!(solver.entries_to_flush().is_empty());
    assert_eq!(solver.solve_position(&all, 0), value);
    // A solver that serves no list has nothing to forget from.
    let mut plain = MemoizedSolver::default();
    assert_eq!(plain.solve_with_disk(&words, &no_disk), value);
    assert!(!plain.evict());
    assert!(plain.cache_size() > 0);
}

#[test]
fn entries_pack_and_unpack() {
    let packed = cache_pack(7, b'q', BOUND_LOWER);
    assert_eq!(cache_unpack(packed), (7, Some(b'q'), BOUND_LOWER));
    assert!(decode_tt_entry(packed).is_none());
    let exact = cache_pack(3, 0, BOUND_EXACT);
    let entry = decode_tt_entry(exact).unwrap();
    assert_eq!((entry.value, entry.best_letter), (3, None));
}

#[test]
fn required_letters_are_folded() {
    let words = word_list(&["cat", "bat", "hat"]);
    let folded = fold_required_letters(&words, &[0, 1, 2], 0);
    // 'a' and 't' stand at the same places of every word.
    assert_eq!(folded, letter_bit(b'a') | letter_bit(b't'));
    assert_eq!(fold_required_letters(&words, &[], 5), 5);
    assert_eq!(canonical_hash_for_words(&words, &[], 0), 0);
}

#[test]
fn keys_do_not_depend_on_letter_names_or_word_order() {
    let words = word_list(&["cat", "bat", "hat", "dog", "fog", "log"]);
    let a = canonical_hash_for_words(&words, &[0, 1, 2], letter_bit(b'a') | letter_bit(b't'));
    let b = canonical_hash_for_words(&words, &[5, 4, 3], letter_bit(b'o') | letter_bit(b'g'));
    assert_eq!(a, b);
}

#[test]
fn a_search_can_be_given_up() {
    let words = word_list(&["cat", "bat", "hat", "mat", "dog", "fog", "log"]);
    let all: Vec<usize> = (0..words.len()).collect();
    let mut solver = MemoizedSolver::for_serving(words.clone());
    assert_eq!(solver.solve_position_until(&all, 0, &no_disk, &|| true), (u32::MAX, true));
    assert!(solver.entries_to_flush().is_empty());
    let (value, stopped) = solver.solve_position_until(&all, 0, &no_disk, &|| false);
    let refs: Vec<&[u8]> = words.iter().map(Vec::as_slice).collect();
    assert_eq!((value, stopped), (NaiveSolver::solve(&refs, 0), false));
    // One word needs no search to give up.
    assert_eq!(solver.solve_position_until(&[3], 0, &no_disk, &|| true), (0, false));
}

#[test]
fn a_search_given_up_halfway_leaves_true_entries() {
    let words = word_list(&["cat", "bat", "hat", "mat", "dog", "fog", "log", "cog"]);
    let all: Vec<usize> = (0..words.len()).collect();
    let refs: Vec<&[u8]> = words.iter().map(Vec::as_slice).collect();
    let value = NaiveSolver::solve(&refs, 0);
    for steps in 0..12 {
        let mut solver = MemoizedSolver::for_serving(words.clone());
        let left = std::cell::Cell::new(steps);
        let stop = || {
            left.set(left.get() - 1);
            left.get() < 0
        };
        let (found, stopped) = solver.solve_position_until(&all, 0, &no_disk, &stop);
        assert!(found >= value);
        assert!(stopped || found == value);
        assert_eq!(solver.solve_position(&all, 0), value);
    }
}

#[test]
fn keys_stay_in_the_table() {
    let words = word_list(&["cat", "bat", "hat", "dog", "fog"]);
    let mut solver = MemoizedSolver::new();
    solver.solve_position_smp(&words, &[0, 1, 2, 3, 4], 0);
    let folded = fold_required_letters(&words, &[0, 1, 2, 3, 4], 0);
    let key = canonical_hash_for_words(&words, &[0, 1, 2, 3, 4], folded);
    assert!(solver.cache().contains_key(&key));
    let before = solver.cache_size();
    solver.solve_bounded(&words, 1);
    solver.solve(&word_list(&["ab", "ba"]));
    assert!(solver.cache().contains_key(&key));
    assert!(solver.cache_size() >= before);
    assert!(!solver.cache().contains_key(&(key ^ 1)));
    assert_eq!(solver.cache().get(&(key ^ 1)), None);
}

#[test]
fn few_words_need_no_table() {
    assert_eq!(memoized_and_naive(&["ab", "ba"]), 0);
    assert_eq!(memoized_and_naive(&["abc", "def"]), 1);
    assert_eq!(memoized_and_naive(&["xab", "xcd", "xef"]), 2);
    let words = word_list(&["abc", "def", "xab", "xcd", "xef"]);
    let mut solver = MemoizedSolver::for_serving(words);
    assert_eq!(solver.solve_position(&[0, 1], 0), 1);
    assert_eq!(solver.solve_position(&[2, 3, 4], letter_bit(b'x')), 2);
}

#[test]
fn a_key_belongs_to_one_form() {
    let mut forms = FormTable::new();
    assert!(forms.accept(7, &vec![1, 2]));
    assert!(forms.accept(7, &vec![1, 2]));
    assert!(!forms.accept(7, &vec![1, 3]));
    assert_eq!(forms.get(7), Some(&vec![1, 2]));
    forms.put(7, &vec![1, 3]);
    assert!(forms.accept(7, &vec![1, 3]));
    let mut other = FormTable::new();
    other.take_over(&forms, 7);
    other.take_over(&forms, 8);
    assert_eq!(other.get(7), Some(&vec![1, 3]));
    assert_eq!(other.get(8), None);
}

#[test]
fn shapes_are_told_apart() {
    let words = word_list(&["abc", "def", "xab", "xcd", "xef"]);
    let wide = canonical_hash_for_words(&words, &[0, 1], 0);
    let tall = canonical_hash_for_words(&words, &[2, 3, 4], letter_bit(b'x'));
    assert_ne!(wide, tall);
}

#[test]
fn a_search_given_up_at_once_leaves_the_table_alone() {
    let words = word_list(&["cat", "bat", "hat", "mat", "dog", "fog", "log"]);
    let all: Vec<usize> = (0..words.len()).collect();
    let mut solver = MemoizedSolver::for_serving(words);
    solver.solve_position(&[0, 1, 2], letter_bit(b'a'));
    let mut before = solver.entries_to_flush();
    assert!(!before.is_empty());
    assert_eq!(solver.solve_position_until(&all, 0, &no_disk, &|| true), (u32::MAX, true));
    let mut after = solver.entries_to_flush();
    before.sort();
    after.sort();
    assert_eq!(before, after);
}

#[test]
fn warming_a_warm_table_searches_nothing() {
    let words = word_list(&["cat", "bat", "hat", "dog", "fog"]);
    let mut solver = MemoizedSolver::new();
    let first = solver.warm_serving_cache(&words);
    assert!(first > 0);
    assert!(first <= solver.cache_size());
    assert_eq!(solver.warm_serving_cache(&words), 0);
    // What one solver found serves another from disk.
    let entries = solver.cache();
    let disk = |key: u128| entries.get(&key);
    let mut other = MemoizedSolver::new();
    assert_eq!(other.warm_serving_cache_with_disk(&words, &disk), 0);
    assert_eq!(MemoizedSolver::new().warm_serving_cache(&word_list(&["cat"])), 0);
}
