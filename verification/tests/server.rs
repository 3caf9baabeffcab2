use hangman2::game::letter_bit;
use hangman2::server::answer::{commit_guess, places_of};
use hangman2::server::catalog::{estimate_minimax, list_minimax, word_texts};
use hangman2::server::encoding::{bitvec_bytes, encode_bitvec, upper_string, word_string};
use hangman2::server::hint::{hint_response, pick_hint, plan_hint, solve_parts, solve_parts_until};
use hangman2::server::queue::{
    accepts_job, eta_seconds, keeps_job, keeps_session, part_budget, phase_report, queue_position, JobPhase, MAX_INFLIGHT_JOBS,
    MAX_SESSIONS,
};
use hangman2::server::referee::{fill_values, plan_guess, solve_order, worst_part};
use hangman2::server::session::{parse_guess, start_game, GameSession, GuessError, StartError};
use hangman2::solver::memoized::{no_disk, MemoizedSolver};
use hangman2::solver::naive::NaiveSolver;
use hangman2::solver::serving::{canonical_hash_for_words, fold_required_letters, lookup};
use hangman2::solver::tt::{cache_pack, BOUND_EXACT, BOUND_UPPER};

fn game_words() -> Vec<Vec<u8>> {
    ["cat", "bat", "hat", "mat", "dog", "fog"].iter().map(|s| s.as_bytes().to_vec()).collect()
}

fn value_of(words: &[Vec<u8>], indices: &[usize], masked: u32) -> u32 {
    let refs: Vec<&[u8]> = indices.iter().map(|&i| words[i].as_slice()).collect();
    NaiveSolver::solve(&refs, masked)
}

/// Guess a letter with every value solved.
fn play(words: &[Vec<u8>], session: &mut GameSession, letter: &str) -> hangman2::server::answer::GuessResponse {
    let l = parse_guess(session, letter).unwrap();
    let plan = plan_guess(words, session, l, &no_disk);
    let mut solver = MemoizedSolver::for_serving(words.to_vec());
    let solved: Vec<(usize, Option<u32>)> = solve_order(&plan)
        .into_iter()
        .map(|i| (i, Some(solver.solve_position(&plan.parts[i].1, plan.new_masked))))
        .collect();
    let values = fill_values(&plan.values, &solved);
    commit_guess(session, words, &plan, &values, false).unwrap()
}

#[test]
fn bitvec_encoding_of_known_sets() {
    assert_eq!(bitvec_bytes(&[0, 3, 9], 10), vec![0b0000_1001, 0b0000_0010]);
    assert_eq!(encode_bitvec(&[0, 3, 9], 10), "CQI=");
    assert_eq!(encode_bitvec(&[], 0), "");
    assert_eq!(encode_bitvec(&[0, 1, 2, 3, 4, 5, 6, 7], 8), "/w==");
    assert_eq!(encode_bitvec(&[1, 8, 23], 24), "AgGA");
}

#[test]
fn texts_in_upper_case() {
    assert_eq!(upper_string(b"_a_z"), "_A_Z");
    assert_eq!(word_string(b"cat"), "cat");
    assert_eq!(word_texts(&game_words())[4], "dog");
    assert_eq!(places_of(0b101), vec![0, 2]);
    assert!(places_of(0).is_empty());
}

#[test]
fn estimates_by_length() {
    let known = [
        (1, 25), (2, 14), (3, 17), (4, 14), (5, 13), (6, 12), (7, 11), (8, 8), (9, 6), (10, 5), (11, 6), (12, 4), (13, 4), (14, 3),
        (15, 2), (16, 2), (17, 2), (18, 3), (19, 3), (20, 2), (21, 1), (25, 1), (26, 0), (0, 0),
    ];
    for (k, v) in known {
        assert_eq!(estimate_minimax(k), v, "k={k}");
    }
}

#[test]
fn minimax_comes_from_the_table_where_it_is_there() {
    let words = game_words();
    assert_eq!(list_minimax(&words, &no_disk), 17);
    let all: Vec<usize> = (0..words.len()).collect();
    let folded = fold_required_letters(&words, &all, 0);
    let key = canonical_hash_for_words(&words, &all, folded);
    let disk = |k: u128| if k == key { Some(cache_pack(3, b'a', BOUND_EXACT)) } else { None };
    assert_eq!(list_minimax(&words, &disk), 3);
    assert_eq!(lookup(&words, &all, 0, &disk).unwrap().best_letter, Some(b'a'));
    let bound = |k: u128| if k == key { Some(cache_pack(3, b'a', BOUND_UPPER)) } else { None };
    assert!(lookup(&words, &all, 0, &bound).is_none());
}

#[test]
fn new_games_and_their_errors() {
    let words = game_words();
    let s = start_game(&words, Some(4), 0).unwrap();
    assert_eq!((s.guesses_allowed, s.guesses_left, s.word_length), (3, 3, 3));
    assert_eq!(s.pattern, b"___".to_vec());
    assert_eq!(s.remaining.len(), 6);
    assert_eq!(start_game(&words, Some(0), 0).unwrap().guesses_allowed, 0);
    assert_eq!(start_game(&words, None, 0).unwrap().guesses_allowed, 6);
    assert_eq!(start_game(&[], Some(4), 0).unwrap_err(), StartError::NoWords);
    assert_eq!(start_game(&words, Some(4), MAX_SESSIONS).unwrap_err(), StartError::Busy);
    assert_eq!(StartError::Busy.message(), "server is busy, try again later");
    assert_eq!(StartError::NoWords.message(), "no words of that length");
}

#[test]
fn guesses_are_read_from_their_first_letter() {
    let words = game_words();
    let mut s = start_game(&words, Some(4), 0).unwrap();
    assert_eq!(parse_guess(&s, "q"), Ok(b'q'));
    assert_eq!(parse_guess(&s, "Quiz"), Ok(b'q'));
    assert_eq!(parse_guess(&s, ""), Err(GuessError::Empty));
    assert_eq!(parse_guess(&s, "7"), Err(GuessError::Invalid));
    assert_eq!(parse_guess(&s, "é"), Err(GuessError::Invalid));
    s.masked = letter_bit(b'q');
    assert_eq!(parse_guess(&s, "q"), Err(GuessError::AlreadyGuessed));
    s.game_over = true;
    assert_eq!(parse_guess(&s, ""), Err(GuessError::GameOver));
    assert_eq!(GuessError::GameOver.message(), "game is over");
    assert_eq!(GuessError::Empty.message(), "empty letter");
    assert_eq!(GuessError::Invalid.message(), "invalid letter");
    assert_eq!(GuessError::AlreadyGuessed.message(), "letter already guessed");
    assert_eq!(GuessError::Stale.message(), "guess is stale (session moved on)");
}

#[test]
fn worst_part_prefers_cost_then_size() {
    let parts = vec![(1, vec![0]), (0, vec![1, 2]), (2, vec![3, 4, 5])];
    // Costs 0, 1 + 1 and 2: the larger of the two that cost most.
    assert_eq!(worst_part(&parts, &[Some(0), Some(1), Some(2)]), 2);
    // Costs 0, 1 + 2 and 2.
    assert_eq!(worst_part(&parts, &[Some(0), Some(2), Some(2)]), 1);
    // An unknown value counts as the worst.
    assert_eq!(worst_part(&parts, &[None, Some(2), Some(2)]), 0);
    // All alike: the first of the largest.
    let same = vec![(1, vec![0]), (2, vec![1]), (4, vec![2])];
    assert_eq!(worst_part(&same, &[Some(0), Some(0), Some(0)]), 0);
}

#[test]
fn a_guess_is_answered_with_the_worst_part() {
    let words = game_words();
    let mut s = start_game(&words, Some(3), 0).unwrap();
    let r = play(&words, &mut s, "z");
    assert_eq!(r.positions, None);
    assert_eq!(r.pattern, "___");
    assert_eq!(r.wrong_letters, vec!["Z".to_string()]);
    assert_eq!((r.guesses_left, r.game_over, r.won), (1, false, false));
    assert_eq!(r.valid_words_bitvec, encode_bitvec(&[0, 1, 2, 3, 4, 5], 6));
    assert_eq!(r.solve_status, "solved");
    let r = play(&words, &mut s, "A");
    // The four words in -at are worse for the player than the two without 'a'.
    assert_eq!(r.positions, Some(vec![1]));
    assert_eq!(r.pattern, "_A_");
    assert_eq!(s.remaining, vec![0, 1, 2, 3]);
    assert_eq!(s.generation, 2);
}

#[test]
fn the_player_never_wins_on_a_budget_below_the_value() {
    let words = game_words();
    let all: Vec<usize> = (0..words.len()).collect();
    let minimax = value_of(&words, &all, 0);
    assert!(minimax > 0);
    // Whatever the order of the guesses, the game ends lost.
    for order in ["etaoinshrdlcumwfgypbvkjxqz", "abcdefghijklmnopqrstuvwxyz", "zyxwvutsrqponmlkjihgfedcba"] {
        let mut s = start_game(&words, Some(minimax), 0).unwrap();
        for c in order.chars() {
            let r = play(&words, &mut s, &c.to_string());
            assert!(!r.won);
            if r.game_over {
                assert!(r.example_word.is_some());
                break;
            }
            assert!(value_of(&words, &s.remaining, s.masked) > s.guesses_left);
        }
        assert!(s.game_over && !s.won);
        assert_eq!(s.wrong_letters.len() as u32, s.guesses_allowed + 1);
    }
}

#[test]
fn a_generous_budget_can_be_won() {
    let words: Vec<Vec<u8>> = vec![b"ab".to_vec()];
    let mut s = start_game(&words, Some(5), 0).unwrap();
    play(&words, &mut s, "a");
    let r = play(&words, &mut s, "b");
    assert!(r.won && r.game_over);
    assert_eq!(r.pattern, "AB");
    assert_eq!(r.example_word.as_deref(), Some("ab"));
}

#[test]
fn stale_guesses_change_nothing() {
    let words = game_words();
    let mut s = start_game(&words, Some(4), 0).unwrap();
    let plan = plan_guess(&words, &s, b'a', &no_disk);
    play(&words, &mut s, "o");
    let before = (s.remaining.clone(), s.masked, s.generation, s.pattern.clone());
    let values = fill_values(&plan.values, &[]);
    assert_eq!(commit_guess(&mut s, &words, &plan, &values, false).unwrap_err(), GuessError::Stale);
    assert_eq!(before, (s.remaining, s.masked, s.generation, s.pattern));
}

#[test]
fn unsolved_parts_are_listed_smallest_first() {
    let words: Vec<Vec<u8>> =
        ["abc", "abd", "abe", "cba", "dba", "xyz", "xyw"].iter().map(|s| s.as_bytes().to_vec()).collect();
    let s = start_game(&words, Some(4), 0).unwrap();
    let plan = plan_guess(&words, &s, b'a', &no_disk);
    assert_eq!(plan.unsolved.len(), 3);
    let sizes: Vec<usize> = solve_order(&plan).iter().map(|&i| plan.parts[i].1.len()).collect();
    assert_eq!(sizes, vec![2, 2, 3]);
    assert_eq!(plan.optimal_letter, None);
    // A search that ran out of time leaves the part unknown, and the answer degraded.
    let mut s = s;
    let r = commit_guess(&mut s, &words, &plan, &plan.values, true).unwrap();
    assert_eq!(r.solve_status, "degraded");
}

#[test]
fn cached_values_need_no_search() {
    let words = game_words();
    let s = start_game(&words, Some(4), 0).unwrap();
    let table: std::collections::HashMap<u128, u32> = [(vec![0usize, 1, 2, 3], 3), (vec![4, 5], 1)]
        .into_iter()
        .map(|(ix, v)| {
            let folded = fold_required_letters(&words, &ix, letter_bit(b'a'));
            (canonical_hash_for_words(&words, &ix, folded), cache_pack(v, b'c', BOUND_EXACT))
        })
        .collect();
    let disk = |k: u128| table.get(&k).copied();
    let plan = plan_guess(&words, &s, b'a', &disk);
    assert!(plan.unsolved.is_empty());
    let mut known: Vec<u32> = plan.values.iter().map(|v| v.unwrap()).collect();
    known.sort();
    assert_eq!(known, vec![1, 3]);
}

#[test]
fn hints_name_a_best_letter() {
    let words = game_words();
    let s = start_game(&words, Some(4), 0).unwrap();
    let plan = plan_hint(&words, &s, &no_disk);
    let mut solver = MemoizedSolver::for_serving(words.clone());
    let mut evals = plan.evals.clone();
    for (letter, parts) in &plan.needs_solve {
        let worst = solve_parts(&mut solver, parts, letter_bit(*letter), &no_disk);
        evals.push((*letter, worst));
    }
    assert_eq!(evals.len(), 26);
    let b = pick_hint(&evals).unwrap();
    let all: Vec<usize> = (0..words.len()).collect();
    assert_eq!(evals[b].1, value_of(&words, &all, 0));
    let h = hint_response(&evals, false).unwrap();
    assert_eq!(h.value, Some(evals[b].1));
    assert_eq!(h.letter, (evals[b].0 as char).to_ascii_uppercase().to_string());
    assert_eq!(h.solve_status, "solved");
    assert_eq!(hint_response(&evals, true).unwrap().solve_status, "degraded");
    assert!(hint_response(&[], false).is_none());
    assert_eq!(pick_hint(&[(b'x', 2), (b'y', 1), (b'z', 1)]), Some(1));
}

#[test]
fn queue_places_and_limits() {
    assert_eq!(queue_position(&[3, 5, 9], 5), 2);
    assert_eq!(queue_position(&[], 5), 1);
    assert!(accepts_job(MAX_INFLIGHT_JOBS - 1));
    assert!(!accepts_job(MAX_INFLIGHT_JOBS));
    assert_eq!(eta_seconds(3), 36);
    assert_eq!(eta_seconds(u32::MAX), u32::MAX);
    assert_eq!(phase_report(JobPhase::Queued { ticket: 9 }, &[3, 5, 9]), ("queued", Some(3)));
    assert_eq!(phase_report(JobPhase::Running { ticket: 3 }, &[3, 5, 9]), ("running", Some(1)));
    assert_eq!(phase_report(JobPhase::Done, &[]), ("done", None));
    assert_eq!(phase_report(JobPhase::Failed, &[]), ("failed", None));
}

#[test]
fn sessions_and_results_expire() {
    assert!(keeps_session(3599));
    assert!(!keeps_session(3600));
    assert!(keeps_job(JobPhase::Running { ticket: 1 }, 100_000));
    assert!(keeps_job(JobPhase::Done, 3599));
    assert!(!keeps_job(JobPhase::Failed, 3600));
    assert_eq!(part_budget(0), Some((8_000, 10_000)));
    assert_eq!(part_budget(15_000), Some((5_000, 7_000)));
    assert_eq!(part_budget(20_000), None);
}

#[test]
fn a_hint_search_can_be_given_up() {
    let words = game_words();
    let s = start_game(&words, Some(4), 0).unwrap();
    let plan = plan_hint(&words, &s, &no_disk);
    let (letter, parts) = &plan.needs_solve[0];
    let masked = letter_bit(*letter);
    let mut solver = MemoizedSolver::for_serving(words.clone());
    assert_eq!(solve_parts_until(&mut solver, parts, masked, &no_disk, &|| true), None);
    let worst = solve_parts_until(&mut solver, parts, masked, &no_disk, &|| false);
    assert_eq!(worst, Some(solve_parts(&mut solver, parts, masked, &no_disk)));
}
