use hangman2::game::letters::pos_mask;
use hangman2::game::{letter_bit, GameState, Pattern};

#[test]
fn blank_pattern() {
    let p = Pattern::blank(5);
    assert_eq!(p.len(), 5);
    assert_eq!(p.display(), "_ _ _ _ _");
}

#[test]
fn reveal_pattern() {
    let p = Pattern::blank(4);
    let p2 = p.reveal_letter(b'a', &[0, 3]);
    assert_eq!(p2.display(), "a _ _ a");
}

#[test]
fn pattern_matches_word() {
    let p = Pattern::blank(4).reveal_letter(b'a', &[0, 3]);
    assert!(p.matches_word(b"abca"));
    assert!(!p.matches_word(b"abcd")); // 'd' at position 3, not 'a'
    assert!(!p.matches_word(b"aaba")); // 'a' at position 1 should be revealed
}

#[test]
fn pattern_rejects_hidden_revealed_letter() {
    // Pattern "a _ _ _": the word "abac" is invalid because the 'a' at place 2 is hidden.
    let p = Pattern::blank(4).reveal_letter(b'a', &[0]);
    assert!(!p.matches_word(b"abac"));
    assert!(p.matches_word(b"abcd"));
}

#[test]
fn game_state_basics() {
    let gs = GameState::new(5);
    assert_eq!(gs.misses, 0);
    assert!(!gs.is_solved());
    assert_eq!(gs.remaining_letters().count_ones(), 26);
}

#[test]
fn letter_bit_values() {
    assert_eq!(letter_bit(b'a'), 1);
    assert_eq!(letter_bit(b'z'), 1 << 25);
}

#[test]
fn pattern_of_another_length_does_not_match() {
    let p = Pattern::blank(3);
    assert!(!p.matches_word(b"ab"));
    assert!(p.matches_word(b"abc"));
    assert!(!p.is_empty());
    assert!(Pattern::blank(0).is_empty());
    assert_eq!(p.slots(), &[0, 0, 0]);
}

#[test]
fn fully_revealed_game_is_solved() {
    let mut gs = GameState::new(2);
    gs.pattern = gs.pattern.reveal_letter(b'a', &[0]).reveal_letter(b'b', &[1]);
    assert!(gs.is_solved());
}

#[test]
fn pos_mask_marks_every_place() {
    assert_eq!(pos_mask(b"banana", b'a'), 0b101010);
    assert_eq!(pos_mask(b"banana", b'z'), 0);
}
