use hangman2::bench::{misses_text, solve_deepening};
use hangman2::game::letter_bit;
use hangman2::precompute::parts::partition_by_letter;
use hangman2::solver::memoized::{no_disk, MemoizedSolver};
use hangman2::solver::serving::{canonical_hash_for_words, fold_required_letters};
use hangman2::solver::tt::{cache_pack, BOUND_EXACT, BOUND_LOWER};
use hangman2::trace::{
    last_largest, lcg_next, legal_letters, parse_strategy, pick_letter, raw_value, turn_answer, turn_order, turn_values, Strategy,
};

fn trace_words() -> Vec<Vec<u8>> {
    ["cat", "bat", "hat", "dog"].iter().map(|s| s.as_bytes().to_vec()).collect()
}

#[test]
fn generator_sequence() {
    let mut state = 42u64;
    let first = lcg_next(&mut state);
    assert_eq!(first, 42u64.wrapping_mul(6364136223846793005).wrapping_add(1442695040888963407));
    assert_eq!(state, first);
    assert_ne!(lcg_next(&mut state), first);
}

#[test]
fn strategies_by_name() {
    assert_eq!(parse_strategy("optimal"), Strategy::Optimal);
    assert_eq!(parse_strategy("adversarial"), Strategy::Adversarial);
    assert_eq!(parse_strategy("random"), Strategy::Random);
    assert_eq!(parse_strategy("least-common"), Strategy::LeastCommon);
    assert_eq!(parse_strategy("anything"), Strategy::First);
}

#[test]
fn letters_are_picked_by_strategy() {
    let words = trace_words();
    let all = [0usize, 1, 2, 3];
    let mut rng = 42u64;
    assert_eq!(legal_letters(letter_bit(b'a')).len(), 25);
    assert_eq!(pick_letter(Strategy::First, &words, &all, letter_bit(b'a'), &no_disk, &mut rng), b'b');
    // 'e' is the first letter in none of the words.
    assert_eq!(pick_letter(Strategy::LeastCommon, &words, &all, 0, &no_disk, &mut rng), b'e');
    assert_eq!(rng, 42);
    let mut expected = 42u64;
    let number = lcg_next(&mut expected);
    let picked = pick_letter(Strategy::Random, &words, &all, 0, &no_disk, &mut rng);
    assert_eq!(picked, b'a' + (number % 26) as u8);
    assert_eq!(rng, expected);
    assert_eq!(pick_letter(Strategy::Random, &words, &all, 0x03ff_ffff, &no_disk, &mut rng), b'a');
}

#[test]
fn table_values_rank_letters() {
    let words: Vec<Vec<u8>> = vec![b"ab".to_vec(), b"cd".to_vec()];
    let all = [0usize, 1];
    let mut rng = 1u64;
    // Letters of the words leave single words and count nothing; any other letter
    // leaves both words, which the table does not have.
    assert_eq!(pick_letter(Strategy::Optimal, &words, &all, 0, &no_disk, &mut rng), b'a');
    assert_eq!(pick_letter(Strategy::Adversarial, &words, &all, 0, &no_disk, &mut rng), b'e');
}

#[test]
fn simulated_turns_take_the_costliest_solved_answer() {
    let words = trace_words();
    let parts = partition_by_letter(&words, &[0, 1, 2, 3], b'a');
    let key = canonical_hash_for_words(&words, &[0, 1, 2], fold_required_letters(&words, &[0, 1, 2], letter_bit(b'a')));
    // Any kind of bound counts here.
    let disk = |k: u128| if k == key { Some(cache_pack(2, b'c', BOUND_LOWER)) } else { None };
    assert_eq!(raw_value(&words, &[0, 1, 2], letter_bit(b'a'), &disk), Some(2));
    let values = turn_values(&words, &parts, letter_bit(b'a'), &disk);
    assert_eq!(values, vec![Some(2), Some(0)]);
    assert_eq!(turn_answer(&parts, &values), (0, 2));
    let unknown = turn_values(&words, &parts, letter_bit(b'a'), &no_disk);
    assert_eq!(unknown, vec![None, Some(0)]);
    // The miss that leaves one word is the only solved answer.
    assert_eq!(turn_answer(&parts, &unknown), (1, 1));
    assert_eq!(turn_answer(&parts, &[None, None]), (0, 0));
    assert_eq!(last_largest(&vec![(0, vec![1]), (1, vec![2]), (2, vec![])]), 1);
}

#[test]
fn deepening_finds_the_value() {
    let words: Vec<Vec<u8>> = ["cat", "bat", "hat", "mat", "sat"].iter().map(|s| s.as_bytes().to_vec()).collect();
    let mut solver = MemoizedSolver::new();
    assert_eq!(solve_deepening(&mut solver, &words, 10, &no_disk, &|_| ()), 4);
    let mut solver = MemoizedSolver::new();
    assert!(solve_deepening(&mut solver, &words, 2, &no_disk, &|_| ()) > 2);
    let mut solver = MemoizedSolver::new();
    assert_eq!(solve_deepening(&mut solver, &words, 0, &no_disk, &|_| ()), 0);
    let runs = std::cell::Cell::new(0);
    let mut solver = MemoizedSolver::new();
    solve_deepening(&mut solver, &words, 10, &no_disk, &|_| runs.set(runs.get() + 1));
    assert_eq!(runs.get(), 3);
    assert_eq!(misses_text(4, None), "4");
    assert_eq!(misses_text(4, Some(10)), "4");
    assert_eq!(misses_text(3, Some(2)), ">2");
}

#[test]
fn packed_values_survive_a_lookup() {
    let words = trace_words();
    let key = canonical_hash_for_words(&words, &[0, 1], fold_required_letters(&words, &[0, 1], 0));
    let disk = |k: u128| if k == key { Some(cache_pack(1, b'b', BOUND_EXACT)) } else { None };
    assert_eq!(raw_value(&words, &[0, 1], 0, &disk), Some(1));
    assert_eq!(raw_value(&words, &[0, 3], 0, &disk), None);
}

#[test]
fn smaller_answers_are_searched_first() {
    let parts = vec![(1, vec![0, 1, 2]), (2, vec![3, 4]), (4, vec![5, 6]), (0, vec![7, 8, 9, 10])];
    assert_eq!(turn_order(&parts, &[None, None, None, Some(1)]), vec![1, 2, 0]);
    assert_eq!(turn_order(&parts, &[Some(0), Some(0), Some(0), Some(0)]), Vec::<usize>::new());
}
