use hangman2::solver::pattern_store::PatternNode;
use hangman2::solver::precomputed::{dag_filename, PrecomputedDag, DAG_VERSION};
use hangman2::solver::word_hash::hash_word_set;

fn dag_words() -> Vec<Vec<u8>> {
    ["cat", "bat", "hat", "mat", "cab", "tab"].iter().map(|s| s.as_bytes().to_vec()).collect()
}

#[test]
fn build_discovers_root() {
    let dag = PrecomputedDag::build(dag_words());
    let root = vec![0u8; 3];
    assert_eq!(dag.matching_words(&root).unwrap().len(), 6);
}

#[test]
fn build_discovers_child_patterns() {
    let dag = PrecomputedDag::build(dag_words());
    // After revealing 'a' at place 1.
    let pattern = vec![0, b'a', 0];
    let matching = dag.matching_words(&pattern);
    assert!(matching.is_some());
    // All six words have 'a' at place 1.
    assert_eq!(matching.unwrap().len(), 6);
}

#[test]
fn build_leaf_pattern() {
    let words: Vec<Vec<u8>> = ["ab", "cd"].iter().map(|s| s.as_bytes().to_vec()).collect();
    let dag = PrecomputedDag::build(words);
    // Fully revealed patterns exist.
    assert!(dag.matching_words(b"ab").is_some());
    assert!(dag.matching_words(b"cd").is_some());
}

#[test]
fn unreachable_pattern_returns_none() {
    let dag = PrecomputedDag::build(dag_words());
    assert!(dag.matching_words(b"zzz").is_none());
}

#[test]
fn node_count_reasonable() {
    let dag = PrecomputedDag::build(dag_words());
    assert!(dag.node_count() > 1);
    assert!(dag.node_count() < 1000);
}

/// The nodes of a graph as they are written out.
fn saved_nodes(dag: &PrecomputedDag) -> Vec<PatternNode> {
    let mut nodes = Vec::new();
    while let Some((pattern, words)) = dag.node(nodes.len()) {
        nodes.push(PatternNode { pattern: pattern.to_vec(), matching: words.to_vec() });
    }
    nodes
}

fn reloaded(dag: &PrecomputedDag) -> PrecomputedDag {
    let (version, hash, count) = dag.metadata();
    PrecomputedDag::from_saved(version, dag.word_length(), hash, count, dag.words().to_vec(), saved_nodes(dag))
}

#[test]
fn save_and_load_roundtrip() {
    let words = dag_words();
    let dag = PrecomputedDag::build(words.clone());
    let loaded = reloaded(&dag);
    assert!(loaded.belongs_to(3, &words));
    assert_eq!(loaded.node_count(), dag.node_count());
    assert_eq!(loaded.word_length(), 3);
    assert_eq!(loaded.matching_words(&[0, b'a', 0]), dag.matching_words(&[0, b'a', 0]));
}

#[test]
fn load_rejects_wrong_word_set() {
    let loaded = reloaded(&PrecomputedDag::build(dag_words()));
    let other_words: Vec<Vec<u8>> = ["dog", "fog"].iter().map(|s| s.as_bytes().to_vec()).collect();
    assert!(!loaded.belongs_to(3, &other_words));
}

#[test]
fn load_rejects_wrong_length() {
    let words = dag_words();
    let loaded = reloaded(&PrecomputedDag::build(words.clone()));
    assert!(!loaded.belongs_to(4, &words));
}

#[test]
fn file_names_hold_version_length_and_hash() {
    assert_eq!(dag_filename(1, 5, 0x1234), "v1_len5_0000000000001234.bin");
    let words = dag_words();
    let dag = PrecomputedDag::build(words.clone());
    assert_eq!(dag.filename(), dag_filename(DAG_VERSION, 3, hash_word_set(&words)));
}

#[test]
fn word_set_hash_ignores_order() {
    let mut words = dag_words();
    let hash = hash_word_set(&words);
    words.reverse();
    assert_eq!(hash_word_set(&words), hash);
    words.pop();
    assert_ne!(hash_word_set(&words), hash);
}

#[test]
fn entries_may_be_saved_in_any_order() {
    let dag = PrecomputedDag::build(dag_words());
    let (version, hash, count) = dag.metadata();
    let mut entries = saved_nodes(&dag);
    entries.reverse();
    let loaded = PrecomputedDag::from_saved(version, dag.word_length(), hash, count, dag.words().to_vec(), entries);
    assert_eq!(loaded.node_count(), dag.node_count());
    for i in 0..dag.node_count() {
        let (pattern, words) = dag.node(i).unwrap();
        assert_eq!(loaded.matching_words(pattern), Some(words));
    }
    let mut shuffled = dag_words();
    shuffled.reverse();
    assert!(loaded.belongs_to(3, &shuffled));
}
