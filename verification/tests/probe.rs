use std::collections::HashMap;

use hangman2::precompute::parts::partition_by_letter;
use hangman2::probe::states::{best_known, fresh_total, letter_total, part_states, position_state, tally, PartState, Tally};
use hangman2::probe::steps::{follow, largest_answer, next_letter, parse_steps, walk_steps, LetterError, StepError};
use hangman2::solver::serving::{canonical_hash_for_words, fold_required_letters};
use hangman2::solver::tt::{cache_pack, BOUND_EXACT, BOUND_LOWER};
use hangman2::solver::MemoizedSolver;
use hangman2::survey::timing::{percentile, speed_of, Speed};
use hangman2::trace::legal_letters;

fn list(words: &[&str]) -> Vec<Vec<u8>> {
    words.iter().map(|w| w.as_bytes().to_vec()).collect()
}

fn bit(letter: u8) -> u32 {
    1 << (letter - b'a')
}

#[test]
fn steps_are_letters_and_masks() {
    assert_eq!(parse_steps("a:0,b:0,i:0x22"), Ok(vec![(b'a', 0), (b'b', 0), (b'i', 0x22)]));
    assert_eq!(parse_steps("z:FFffFFff"), Ok(vec![(b'z', u32::MAX)]));
    assert_eq!(parse_steps("q:0x0x1f"), Ok(vec![(b'q', 0x1f)]));
    assert_eq!(parse_steps("q:+a"), Ok(vec![(b'q', 10)]));
    assert_eq!(parse_steps("quiz:3:9"), Ok(vec![(b'q', 3)]));
}

#[test]
fn faulty_steps_are_refused() {
    assert_eq!(parse_steps(""), Err(StepError::MissingLetter));
    assert_eq!(parse_steps("a:0,"), Err(StepError::MissingLetter));
    assert_eq!(parse_steps(":4"), Err(StepError::MissingLetter));
    assert_eq!(parse_steps("A:4"), Err(StepError::NotALetter));
    assert_eq!(parse_steps("a"), Err(StepError::MissingMask));
    assert_eq!(parse_steps("a:"), Err(StepError::NotAMask));
    assert_eq!(parse_steps("a:0x"), Err(StepError::NotAMask));
    assert_eq!(parse_steps("a:g"), Err(StepError::NotAMask));
    assert_eq!(parse_steps("a:100000000"), Err(StepError::NotAMask));
    assert_eq!(parse_steps("a:g,B:1"), Err(StepError::NotAMask));
    assert_eq!(StepError::NotAMask.message(), "a mask must be a hexadecimal number");
    assert_eq!(StepError::MissingMask.message(), "a step must be letter:mask (e.g. a:0x22)");
    assert_eq!(StepError::MissingLetter.message(), "a step must start with a letter");
    assert_eq!(StepError::NotALetter.message(), "a step must start with a letter from a to z");
}

#[test]
fn path_letters_are_checked() {
    assert_eq!(next_letter('q', 0), Ok(b'q'));
    assert_eq!(next_letter('q', bit(b'q')), Err(LetterError::Repeated));
    assert_eq!(next_letter('Q', 0), Err(LetterError::Invalid));
    assert_eq!(next_letter('!', 0), Err(LetterError::Invalid));
}

#[test]
fn walking_a_path() {
    let words = list(&["bat", "cat", "dog", "hat"]);
    assert_eq!(walk_steps(&words, &[(b'a', 2)]), Ok((vec![0, 1, 3], bit(b'a'))));
    assert_eq!(walk_steps(&words, &[(b'a', 2), (b'b', 0)]), Ok((vec![1, 3], bit(b'a') | bit(b'b'))));
    assert_eq!(walk_steps(&words, &[(b'a', 2), (b'b', 4)]), Err(1));
    assert_eq!(walk_steps(&words, &[]), Ok((vec![0, 1, 2, 3], 0)));
    assert_eq!(follow(&words, &[0, 2], b'd', 1), Some(vec![2]));
    assert_eq!(follow(&words, &[0, 1], b'd', 1), None);
}

#[test]
fn largest_answer_leaves_most_words() {
    let words = list(&["bat", "cat", "dog", "hat"]);
    assert_eq!(largest_answer(&words, &[0, 1, 2, 3], b'a'), (2, vec![0, 1, 3]));
    assert_eq!(largest_answer(&words, &[0, 2], b'a'), (2, vec![0]));
}

#[test]
fn states_of_the_answers() {
    let words = list(&["bat", "cat", "dog", "hat", "dig", "fog"]);
    let all: Vec<usize> = (0..words.len()).collect();
    let parts = partition_by_letter(&words, &all, b'a');
    let masked = bit(b'a');
    let key = |indices: &[usize]| canonical_hash_for_words(&words, indices, fold_required_letters(&words, indices, masked));
    let mut table: HashMap<u128, u32> = HashMap::new();
    table.insert(key(&[0, 1, 3]), cache_pack(2, b'b', BOUND_EXACT));
    let find = |k: u128| table.get(&k).copied();
    let states = part_states(&words, &parts, masked, &find);
    assert_eq!(parts.len(), 2);
    let hit = parts.iter().position(|p| p.0 == 2).unwrap();
    assert_eq!(states[hit], PartState::Present { value: 2, best_letter: Some(b'b'), bound: BOUND_EXACT });
    assert_eq!(states[1 - hit], PartState::Absent);
    assert_eq!(tally(&states), Tally { exact: 1, bounded: 0, absent: 1, trivial: 0 });
    assert_eq!(letter_total(&parts, &states), None);
    assert_eq!(position_state(&words, &[2], masked, &find), PartState::Trivial);

    let known = vec![
        PartState::Present { value: 3, best_letter: None, bound: BOUND_LOWER },
        PartState::Trivial,
        PartState::Trivial,
    ];
    assert_eq!(tally(&known), Tally { exact: 0, bounded: 1, absent: 0, trivial: 2 });
    let three = vec![(0, vec![0, 1]), (1, vec![2]), (2, vec![3])];
    assert_eq!(letter_total(&three, &known), Some(4));
}

#[test]
fn best_known_letter() {
    assert_eq!(best_known(&[(b'a', None), (b'b', Some(3)), (b'c', Some(2)), (b'd', Some(2))]), Some((b'c', 2)));
    assert_eq!(best_known(&[(b'a', None)]), None);
    assert_eq!(best_known(&[]), None);
}

#[test]
fn lowest_cost_is_the_value() {
    let words = list(&["bat", "cat", "dog", "hat", "dig", "fog", "log", "mat"]);
    let all: Vec<usize> = (0..words.len()).collect();
    let costs: Vec<(u8, Option<u32>)> = legal_letters(0)
        .into_iter()
        .map(|l| (l, Some(fresh_total(&words, &partition_by_letter(&words, &all, l), bit(l)))))
        .collect();
    let direct = MemoizedSolver::new().solve_position_smp(&words, &all, 0);
    assert_eq!(best_known(&costs).unwrap().1, direct);
    assert_eq!(direct, MemoizedSolver::new().solve(&words));
}

#[test]
fn a_true_table_fits_together() {
    let words = list(&["bat", "cat", "dog", "hat", "dig"]);
    let all: Vec<usize> = (0..words.len()).collect();
    let mut solver = MemoizedSolver::new();
    let direct = solver.solve(&words);
    for letter in legal_letters(0) {
        for (_, indices) in partition_by_letter(&words, &all, letter) {
            solver.solve_position_smp(&words, &indices, bit(letter));
        }
    }
    let table: HashMap<u128, u32> = solver.entries_to_flush().into_iter().collect();
    let find = |k: u128| table.get(&k).copied();
    let costs: Vec<(u8, Option<u32>)> = legal_letters(0)
        .into_iter()
        .map(|l| {
            let parts = partition_by_letter(&words, &all, l);
            let states = part_states(&words, &parts, bit(l), &find);
            (l, letter_total(&parts, &states))
        })
        .collect();
    assert!(costs.iter().all(|c| c.1.is_some()));
    assert_eq!(best_known(&costs).unwrap().1, direct);
}

#[test]
fn speeds() {
    assert_eq!(speed_of(999, false, 3, 10), Speed::Fast);
    assert_eq!(speed_of(1000, false, 3, 10), Speed::Medium);
    assert_eq!(speed_of(3000, false, 3, 10), Speed::Slow);
    assert_eq!(speed_of(9799, false, 3, 10), Speed::Slow);
    assert_eq!(speed_of(9800, false, 3, 10), Speed::Timeout);
    assert_eq!(speed_of(5, true, 3, 10), Speed::Timeout);
    assert_eq!(speed_of(0, false, 3, 0), Speed::Timeout);
}

#[test]
fn percentiles() {
    assert_eq!(percentile(&vec![], 50), 0);
    assert_eq!(percentile(&vec![5], 99), 5);
    let times: Vec<u64> = (1..=100).rev().collect();
    assert_eq!(percentile(&times, 50), 51);
    assert_eq!(percentile(&times, 95), 96);
    assert_eq!(percentile(&times, 99), 100);
    assert_eq!(percentile(&times, 100), 100);
}
