use hangman2::game::letter_bit;
use hangman2::solver::naive::NaiveSolver;

fn naive_value(words: &[&str]) -> u32 {
    let owned: Vec<Vec<u8>> = words.iter().map(|s| s.as_bytes().to_vec()).collect();
    let refs: Vec<&[u8]> = owned.iter().map(Vec::as_slice).collect();
    NaiveSolver::solve(&refs, 0)
}

#[test]
fn single_word_zero_misses() {
    // Only one word: the referee is committed, the guesser can not miss.
    assert_eq!(naive_value(&["cat"]), 0);
}

#[test]
fn two_identical_words() {
    assert_eq!(naive_value(&["cat", "cat"]), 0);
}

#[test]
fn two_words_one_letter_diff() {
    assert_eq!(naive_value(&["cat", "bat"]), 1);
}

#[test]
fn three_words_simple() {
    assert_eq!(naive_value(&["cat", "bat", "hat"]), 2);
}

#[test]
fn completely_different_words() {
    assert_eq!(naive_value(&["ab", "cd"]), 1);
}

#[test]
fn naive_longer_example() {
    assert_eq!(naive_value(&["abc", "abd", "xyz"]), 1);
}

#[test]
fn guessed_letters_are_not_guessed_again() {
    let words: Vec<&[u8]> = vec![b"cat", b"bat", b"hat"];
    // With 'c' and 'b' guessed, 'h' is all that tells the words apart.
    let guessed = letter_bit(b'c') | letter_bit(b'b');
    assert_eq!(NaiveSolver::solve(&words, guessed), 1);
    let none: Vec<&[u8]> = vec![];
    assert_eq!(NaiveSolver::solve(&none, 0), 0);
}

#[test]
fn the_value_is_less_than_the_number_of_words() {
    assert_eq!(naive_value(&["cat", "bat", "hat", "mat"]), 3);
    // Only one letter is open: it can cost one miss, and there are two words.
    let words: [&[u8]; 2] = [b"ab", b"bb"];
    assert_eq!(NaiveSolver::solve(&words, letter_bit(b'b')), 1);
}

#[test]
fn renaming_letters_keeps_the_value() {
    let words: [&[u8]; 4] = [b"cat", b"bat", b"tab", b"act"];
    // c to x, a to b, t to y, b to a.
    let renamed: [&[u8]; 4] = [b"xby", b"aby", b"yba", b"bxy"];
    assert_eq!(NaiveSolver::solve(&words, 0), NaiveSolver::solve(&renamed, 0));
    assert_eq!(NaiveSolver::solve(&words, letter_bit(b'b')), NaiveSolver::solve(&renamed, letter_bit(b'a')));
}

#[test]
fn moving_places_keeps_the_value() {
    let words: [&[u8]; 4] = [b"cat", b"bat", b"tab", b"act"];
    let moved: [&[u8]; 4] = [b"tca", b"tba", b"bta", b"tac"];
    assert_eq!(NaiveSolver::solve(&words, 0), NaiveSolver::solve(&moved, 0));
}
