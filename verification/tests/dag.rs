use hangman2::solver::dag::DagSolver;
use hangman2::solver::naive::NaiveSolver;
use hangman2::solver::precomputed::PrecomputedDag;

fn dag_and_naive(words: &[&str]) -> u32 {
    let owned: Vec<Vec<u8>> = words.iter().map(|s| s.as_bytes().to_vec()).collect();
    let refs: Vec<&[u8]> = owned.iter().map(Vec::as_slice).collect();
    let naive_result = NaiveSolver::solve(&refs, 0);
    let mut solver = DagSolver::new(&owned);
    let dag_result = solver.solve();
    assert_eq!(naive_result, dag_result, "naive={naive_result} != dag={dag_result} for {words:?}");
    dag_result
}

#[test]
fn dag_single_word() {
    assert_eq!(dag_and_naive(&["cat"]), 0);
}

#[test]
fn dag_two_words_one_diff() {
    assert_eq!(dag_and_naive(&["cat", "bat"]), 1);
}

#[test]
fn dag_three_words() {
    assert_eq!(dag_and_naive(&["cat", "bat", "hat"]), 2);
}

#[test]
fn dag_disjoint_words() {
    assert_eq!(dag_and_naive(&["ab", "cd"]), 1);
}

#[test]
fn dag_longer_example() {
    assert_eq!(dag_and_naive(&["abc", "abd", "xyz"]), 1);
}

#[test]
fn dag_four_words_same_suffix() {
    dag_and_naive(&["cat", "bat", "hat", "mat"]);
}

#[test]
fn dag_two_letter_words() {
    dag_and_naive(&["ab", "ac", "ad", "bc", "bd", "cd"]);
}

#[test]
fn dag_all_same_structure() {
    dag_and_naive(&["ba", "ca", "da", "fa", "ga"]);
}

#[test]
fn cache_is_used() {
    let words: Vec<Vec<u8>> = ["cat", "bat", "hat", "mat"].iter().map(|s| s.as_bytes().to_vec()).collect();
    let mut solver = DagSolver::new(&words);
    let _ = solver.solve();
    assert!(solver.cache_size() > 0);
}

#[test]
fn dag_node_count_reasonable() {
    let words: Vec<Vec<u8>> =
        ["cat", "bat", "hat", "mat", "cab", "tab"].iter().map(|s| s.as_bytes().to_vec()).collect();
    let solver = DagSolver::new(&words);
    assert!(solver.node_count() > 1);
    assert!(solver.node_count() < 1000);
}

#[test]
fn canonical_isomorphism_shares_cache() {
    let words: Vec<Vec<u8>> = ["ab", "cd", "ef", "gh"].iter().map(|s| s.as_bytes().to_vec()).collect();
    let mut solver = DagSolver::new(&words);
    let _ = solver.solve();
    // Isomorphic subproblems share entries, so there are no more of them than keys.
    assert!(solver.cache_size() <= solver.key_cache_size());
}

#[test]
fn dag_counts_exact_entries_and_calls() {
    let words: Vec<Vec<u8>> = ["cat", "bat", "hat", "mat", "cab"].iter().map(|s| s.as_bytes().to_vec()).collect();
    let mut solver = DagSolver::new(&words);
    assert_eq!(solver.cache_size(), 0);
    assert_eq!(solver.hash_calls(), 0);
    let first = solver.solve();
    assert!(solver.exact_cache_size() <= solver.cache_size());
    assert!(solver.hash_calls() > 0);
    // A second run answers from the table.
    assert_eq!(solver.solve(), first);
    assert!(solver.cache_hits() > 0);
}

#[test]
fn the_graph_has_one_node_for_each_pattern() {
    let words: Vec<Vec<u8>> = ["cat", "bat", "hat", "aab"].iter().map(|s| s.as_bytes().to_vec()).collect();
    let patterns = PrecomputedDag::build(words.clone()).node_count();
    assert_eq!(DagSolver::new(&words).node_count(), patterns);
    // One word of two letters shows four patterns.
    assert_eq!(DagSolver::new(&[b"ab".to_vec()]).node_count(), 4);
}

#[test]
fn solving_again_keeps_the_table() {
    let words: Vec<Vec<u8>> = ["cat", "bat", "hat", "mat", "dog"].iter().map(|s| s.as_bytes().to_vec()).collect();
    let mut solver = DagSolver::new(&words);
    let value = solver.solve();
    assert!(value > 0);
    let (all, exact) = (solver.cache_size(), solver.exact_cache_size());
    assert!(all > 0);
    assert_eq!(solver.solve(), value);
    assert!(solver.cache_size() >= all);
    assert!(solver.exact_cache_size() >= exact);
}
