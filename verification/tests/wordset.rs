use hangman2::solver::wordset::WordSet;

#[test]
fn full_set() {
    let ws = WordSet::full(5);
    assert_eq!(ws.len(), 5);
    assert!(ws.contains(0));
    assert!(ws.contains(4));
    assert!(!ws.contains(5));
    assert_eq!(ws.iter().collect(), vec![0, 1, 2, 3, 4]);
}

#[test]
fn full_set_exact_block() {
    let ws = WordSet::full(64);
    assert_eq!(ws.len(), 64);
    assert!(ws.contains(63));
    assert!(!ws.contains(64));
}

#[test]
fn full_set_multi_block() {
    let ws = WordSet::full(100);
    assert_eq!(ws.len(), 100);
    assert!(ws.contains(99));
    assert!(!ws.contains(100));
    assert_eq!(ws.iter().count(), 100);
}

#[test]
fn empty_set_and_insert() {
    let mut ws = WordSet::empty(10);
    assert_eq!(ws.len(), 0);
    assert!(!ws.contains(3));
    ws.insert(3);
    ws.insert(7);
    assert_eq!(ws.len(), 2);
    assert!(ws.contains(3));
    assert!(ws.contains(7));
    assert_eq!(ws.iter().collect(), vec![3, 7]);
}

#[test]
fn double_insert() {
    let mut ws = WordSet::empty(10);
    ws.insert(3);
    ws.insert(3);
    assert_eq!(ws.len(), 1);
}

#[test]
fn a_walk_that_is_over_collects_nothing() {
    let mut ws = WordSet::empty(10);
    ws.insert(4);
    let once = ws.clone();
    ws.insert(4);
    assert_eq!(ws, once);
    let mut it = ws.iter();
    assert_eq!(it.next(), Some(4));
    assert_eq!(it.next(), None);
    assert_eq!(it.count(), 0);
}

#[test]
fn word_set_blocks() {
    let mut ws = WordSet::empty(70);
    assert!(ws.is_empty());
    ws.insert(0);
    ws.insert(65);
    assert_eq!(ws.as_bits(), &[1, 2]);
    let mut it = ws.iter();
    assert_eq!(it.next(), Some(0));
    assert_eq!(it.next(), Some(65));
    assert_eq!(it.next(), None);
}

#[test]
fn the_last_block_has_room_to_its_end() {
    let mut ws = WordSet::empty(10);
    ws.insert(63);
    ws.insert(63);
    assert_eq!(ws.len(), 1);
    assert!(ws.contains(63));
    let mut full = WordSet::full(70);
    full.insert(127);
    assert_eq!(full.len(), 71);
}
