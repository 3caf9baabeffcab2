//! What a guess comes to: reading it, searching its answers and choosing one.
use vstd::prelude::*;

use crate::game::letters::{holds, is_lower, letters};
use crate::game::rules::{is_guess_value, wins};
use crate::probe::laws::lemma_entry_found;
use crate::server::laws::{lemma_known_true, lemma_referee_optimal, session_value, values_true};
use crate::server::referee::{
    answer_cost, filled, is_solve_order, is_worst, letter_known, lists_unknown, outranks, part_known, smaller_first, GuessPlan,
};
use crate::server::session::{budget, guess_of, GameSession, GuessError};
use crate::solver::memoized::{all_indices, list_value, word_len};
use crate::solver::serving::{serving_key, stored, TtEntry};
use crate::solver::signature::{chosen, position_value};
use crate::solver::trust::disk_true;
use crate::solver::tt::{tt_bound, tt_letter, tt_value};
use crate::sorting::{before, in_order, perm_of};

verus! {

proof fn lemma_filled_len(values: Seq<Option<u32>>, solved: Seq<(usize, Option<u32>)>, n: nat)
    requires
        n <= solved.len(),
        forall|u: int| 0 <= u < n ==> (#[trigger] solved[u]).0 < values.len(),
    ensures
        filled(values, solved, n).len() == values.len(),
    decreases n,
{
    if n > 0 {
        lemma_filled_len(values, solved, (n - 1) as nat);
        assert(solved[n - 1].0 < values.len());
    }
}

/// What the last search of a part found is the value of the part from then on.
pub proof fn lemma_filled_last(values: Seq<Option<u32>>, solved: Seq<(usize, Option<u32>)>, n: nat, t: int)
    requires
        0 <= t < n <= solved.len(),
        forall|u: int| 0 <= u < n ==> (#[trigger] solved[u]).0 < values.len(),
        forall|u: int| t < u < n ==> (#[trigger] solved[u]).0 != solved[t].0,
    ensures
        filled(values, solved, n).len() == values.len(),
        filled(values, solved, n)[solved[t].0 as int] == solved[t].1,
    decreases n,
{
    lemma_filled_len(values, solved, (n - 1) as nat);
    assert(solved[n - 1].0 < values.len());
    if t < n - 1 {
        lemma_filled_last(values, solved, (n - 1) as nat, t);
        assert(solved[n - 1].0 != solved[t].0);
    }
}

/// A part that was not searched keeps what was known of it.
pub proof fn lemma_filled_elsewhere(values: Seq<Option<u32>>, solved: Seq<(usize, Option<u32>)>, n: nat, i: int)
    requires
        n <= solved.len(),
        0 <= i < values.len(),
        forall|u: int| 0 <= u < n ==> (#[trigger] solved[u]).0 < values.len(),
        forall|u: int| 0 <= u < n ==> (#[trigger] solved[u]).0 != i,
    ensures
        filled(values, solved, n).len() == values.len(),
        filled(values, solved, n)[i] == values[i],
    decreases n,
{
    lemma_filled_len(values, solved, n);
    if n > 0 {
        lemma_filled_len(values, solved, (n - 1) as nat);
        assert(solved[n - 1].0 < values.len());
        lemma_filled_elsewhere(values, solved, (n - 1) as nat, i);
        assert(solved[n - 1].0 != i);
    }
}

/// The last search of a part, where there is one among the first `n`.
proof fn lemma_last_search(solved: Seq<(usize, Option<u32>)>, n: nat, i: int) -> (t: int)
    requires
        n <= solved.len(),
        exists|u: int| 0 <= u < n && (#[trigger] solved[u]).0 == i,
    ensures
        0 <= t < n,
        solved[t].0 == i,
        forall|u: int| t < u < n ==> (#[trigger] solved[u]).0 != i,
    decreases n,
{
    if solved[n - 1].0 == i {
        n - 1
    } else {
        let u = choose|u: int| 0 <= u < n && (#[trigger] solved[u]).0 == i;
        assert(u < n - 1);
        assert(exists|v: int| 0 <= v < n - 1 && (#[trigger] solved[v]).0 == i);
        lemma_last_search(solved, (n - 1) as nat, i)
    }
}

/// Searching makes the values of a plan true: where what the table had is true, and
/// every part that it did not have was searched with a true result, the filled values
/// are the values of the answers.
pub proof fn lemma_filled_true<D: Fn(u128) -> Option<u32>>(
    words: Seq<Vec<u8>>,
    session: GameSession,
    plan: GuessPlan,
    disk: D,
    solved: Seq<(usize, Option<u32>)>,
)
    requires
        session.ok(words),
        words.len() <= usize::MAX,
        plan.fits(words, session),
        disk_true(words, all_indices(words.len()), 0, word_len(words), disk),
        forall|a: int|
            0 <= a < plan.parts@.len() ==> part_known(words, (#[trigger] plan.parts@[a]).1@, plan.new_masked, disk, plan.values@[a]),
        lists_unknown(plan.values@, plan.unsolved@),
        forall|t: int|
            0 <= t < solved.len() ==> (#[trigger] solved[t]).0 < plan.parts@.len() && solved[t].1 is Some && solved[t].1->0 == position_value(
                words,
                plan.parts@[solved[t].0 as int].1@,
                plan.new_masked,
            ),
        forall|i: usize| #[trigger]
            plan.unsolved@.contains(i) ==> exists|t: int| 0 <= t < solved.len() && (#[trigger] solved[t]).0 == i,
    ensures
        values_true(words, plan.parts@, plan.new_masked, filled(plan.values@, solved, solved.len())),
{
    let all = filled(plan.values@, solved, solved.len());
    lemma_filled_len(plan.values@, solved, solved.len());
    assert(plan.parts@.len() == plan.parts.len());
    assert forall|a: int| 0 <= a < plan.parts@.len() implies (#[trigger] all[a]) is Some && all[a]->0 == position_value(
        words,
        plan.parts@[a].1@,
        plan.new_masked,
    ) by {
        if exists|t: int| 0 <= t < solved.len() && (#[trigger] solved[t]).0 == a {
            let t = lemma_last_search(solved, solved.len(), a);
            lemma_filled_last(plan.values@, solved, solved.len(), t);
        } else {
            lemma_filled_elsewhere(plan.values@, solved, solved.len(), a);
            if plan.values@[a] is None {
                assert(plan.unsolved@.contains(a as usize));
            }
            lemma_known_true(words, session, plan.letter, plan.parts@[a], disk, plan.values@[a]);
        }
    }
}

/// A guess that needed a search is answered optimally: with true search results the
/// referee's answer costs the player the minimax value of the guess.
pub proof fn lemma_searched_optimal<D: Fn(u128) -> Option<u32>>(
    words: Seq<Vec<u8>>,
    session: GameSession,
    plan: GuessPlan,
    disk: D,
    solved: Seq<(usize, Option<u32>)>,
    b: int,
)
    requires
        session.ok(words),
        words.len() <= usize::MAX,
        plan.fits(words, session),
        disk_true(words, all_indices(words.len()), 0, word_len(words), disk),
        forall|a: int|
            0 <= a < plan.parts@.len() ==> part_known(words, (#[trigger] plan.parts@[a]).1@, plan.new_masked, disk, plan.values@[a]),
        lists_unknown(plan.values@, plan.unsolved@),
        forall|t: int|
            0 <= t < solved.len() ==> (#[trigger] solved[t]).0 < plan.parts@.len() && solved[t].1 is Some && solved[t].1->0 == position_value(
                words,
                plan.parts@[solved[t].0 as int].1@,
                plan.new_masked,
            ),
        forall|i: usize| #[trigger]
            plan.unsolved@.contains(i) ==> exists|t: int| 0 <= t < solved.len() && (#[trigger] solved[t]).0 == i,
        is_worst(plan.parts@, filled(plan.values@, solved, solved.len()), b),
    ensures
        is_guess_value(
            chosen(words, session.remaining@),
            letters(session.masked),
            plan.letter,
            position_value(words, plan.parts@[b].1@, plan.new_masked) + if plan.parts@[b].0 == 0 {
                1int
            } else {
                0int
            },
        ),
{
    let all = filled(plan.values@, solved, solved.len());
    lemma_filled_true(words, session, plan, disk, solved);
    lemma_referee_optimal(words, session, plan, all, b);
    assert(all[b] is Some);
}

/// A part is to be searched exactly where its value is not known.
pub proof fn lemma_unknown_listed(values: Seq<Option<u32>>, which: Seq<usize>)
    requires
        lists_unknown(values, which),
        values.len() <= usize::MAX,
    ensures
        forall|i: int| 0 <= i < values.len() ==> (values[i] is None <==> #[trigger] which.contains(i as usize)),
        forall|s: int, t: int| 0 <= s < t < which.len() ==> which[s] < which[t],
        forall|t: int| 0 <= t < which.len() ==> #[trigger] which[t] < values.len(),
{
    assert forall|i: int| 0 <= i < values.len() implies (values[i] is None <==> #[trigger] which.contains(i as usize)) by {
        if which.contains(i as usize) {
            let t = choose|t: int| 0 <= t < which.len() && which[t] == i as usize;
            assert(which[t] < values.len() && values[which[t] as int] is None);
        }
    }
}

/// Where all values are known, the chosen answer costs the player most, a miss counted;
/// among answers that cost as much it leaves most words, and among those it is the
/// first.
pub proof fn lemma_worst_known(parts: Seq<(u32, Vec<usize>)>, values: Seq<Option<u32>>, b: int, a: int)
    requires
        is_worst(parts, values, b),
        0 <= a < parts.len(),
        values[a] is Some,
        values[b] is Some,
    ensures
        0 <= b < parts.len(),
        ({
            let miss_a: int = if parts[a].0 == 0 { 1 } else { 0 };
            let miss_b: int = if parts[b].0 == 0 { 1 } else { 0 };
            let cost_a = miss_a + values[a]->0;
            let cost_b = miss_b + values[b]->0;
            &&& cost_a <= cost_b
            &&& cost_a == cost_b ==> parts[a].1@.len() <= parts[b].1@.len()
            &&& cost_a == cost_b && parts[a].1@.len() == parts[b].1@.len() ==> b <= a
        }),
{
    assert(!outranks(parts, values, a, b));
    if a < b {
        assert(outranks(parts, values, b, a));
    }
}

/// An answer of unknown value counts as the worst: it is chosen before any whose value
/// is known, and among several of them the one that leaves most words.
pub proof fn lemma_worst_unknown(parts: Seq<(u32, Vec<usize>)>, values: Seq<Option<u32>>, b: int, a: int)
    requires
        is_worst(parts, values, b),
        0 <= a < parts.len(),
        values[a] is None,
        values[b] matches Some(v) ==> v < u32::MAX - 1,
    ensures
        0 <= b < parts.len(),
        values[b] is None,
        parts[a].1@.len() <= parts[b].1@.len(),
        parts[a].1@.len() == parts[b].1@.len() ==> b <= a,
{
    assert(!outranks(parts, values, a, b));
    if a < b {
        assert(outranks(parts, values, b, a));
    }
}

/// Only one answer is the referee's choice.
pub proof fn lemma_worst_unique(parts: Seq<(u32, Vec<usize>)>, values: Seq<Option<u32>>, b: int, c: int)
    requires
        is_worst(parts, values, b),
        is_worst(parts, values, c),
    ensures
        b == c,
{
    if b < c {
        assert(outranks(parts, values, c, b));
        assert(!outranks(parts, values, c, b));
    } else if c < b {
        assert(outranks(parts, values, b, c));
        assert(!outranks(parts, values, b, c));
    }
}

/// The parts to search are searched each once, smaller ones first, and parts of one
/// size in the order in which they were listed.
pub proof fn lemma_solve_order(parts: Seq<(u32, Vec<usize>)>, which: Seq<usize>, out: Seq<usize>)
    requires
        is_solve_order(parts, which, out),
        which.len() <= usize::MAX,
        forall|s: int, t: int| 0 <= s < t < which.len() ==> which[s] < which[t],
    ensures
        out.len() == which.len(),
        forall|i: usize| #[trigger] out.contains(i) == which.contains(i),
        out.no_duplicates(),
        forall|s: int, t: int|
            0 <= s < t < out.len() ==> parts[#[trigger] out[s] as int].1@.len() <= parts[#[trigger] out[t] as int].1@.len(),
        forall|s: int, t: int|
            0 <= s < t < out.len() && parts[#[trigger] out[s] as int].1@.len() == parts[#[trigger] out[t] as int].1@.len() ==> out[s]
                < out[t],
{
    let leq = smaller_first(parts, which);
    let p = choose|p: Seq<usize>| #[trigger]
        perm_of(p, 0, which.len() as int) && in_order(leq, p) && out == Seq::new(which.len(), |t: int| which[p[t] as int]);
    assert forall|i: usize| #[trigger] out.contains(i) == which.contains(i) by {
        if out.contains(i) {
            let t = choose|t: int| 0 <= t < out.len() && out[t] == i;
            assert(which[p[t] as int] == i);
        }
        if which.contains(i) {
            let s = choose|s: int| 0 <= s < which.len() && which[s] == i;
            assert(p.contains(s as usize));
            let t = choose|t: int| 0 <= t < p.len() && p[t] == s as usize;
            assert(out[t] == i);
        }
    }
    assert forall|s: int, t: int| 0 <= s < t < out.len() implies parts[#[trigger] out[s] as int].1@.len() <= parts[#[trigger] out[t] as int].1@.len()
        && (parts[out[s] as int].1@.len() == parts[out[t] as int].1@.len() ==> out[s] < out[t]) && out[s] != out[t] by {
        assert(before(leq, p[s] as int, p[t] as int));
        assert(p[s] != p[t]);
    }
}

/// A guess is read in either case: a character that writes a letter stands for it, and
/// the guess is taken unless the letter was guessed before.
pub proof fn lemma_guess_read(session: GameSession, text: Seq<char>, l: u8)
    requires
        !session.game_over,
        text.len() > 0,
        is_lower(l),
        text[0] as int == l || text[0] as int + 32 == l,
    ensures
        holds(session.masked, l) ==> guess_of(session, text) == Err::<u8, GuessError>(GuessError::AlreadyGuessed),
        !holds(session.masked, l) ==> guess_of(session, text) == Ok::<u8, GuessError>(l),
{
}

/// No other text is a guess, and each is refused for its own reason.
pub proof fn lemma_guess_refused(session: GameSession, text: Seq<char>)
    ensures
        session.game_over <==> guess_of(session, text) == Err::<u8, GuessError>(GuessError::GameOver),
        !session.game_over && text.len() == 0 <==> guess_of(session, text) == Err::<u8, GuessError>(GuessError::Empty),
        !session.game_over && text.len() > 0 && !(65 <= text[0] as int <= 90) && !(97 <= text[0] as int <= 122) <==> guess_of(
            session,
            text,
        ) == Err::<u8, GuessError>(GuessError::Invalid),
        guess_of(session, text) != Err::<u8, GuessError>(GuessError::Stale),
        guess_of(session, text) matches Ok(l) ==> is_lower(l) && (text[0] as int == l || text[0] as int + 32 == l),
{
}

/// A new game allows as many misses as leave it just hopeless: one more, and the player
/// could win by best play.
pub proof fn lemma_start_just_hopeless(words: Seq<Vec<u8>>, session: GameSession, minimax: u32)
    requires
        minimax == list_value(words),
        minimax > 0,
        session.remaining@ == all_indices(words.len()),
        session.masked == 0,
        session.guesses_left == budget(Some(minimax)),
    ensures
        session.guesses_left + 1 == minimax,
        session.guesses_left + 1 == session_value(words, session),
        !wins(chosen(words, session.remaining@), letters(session.masked), session.guesses_left as int),
        wins(chosen(words, session.remaining@), letters(session.masked), session.guesses_left + 1),
{
    let s = chosen(words, session.remaining@);
    let g = letters(session.masked);
    crate::game::rules::lemma_value(s, g, session.guesses_left as int);
    crate::game::rules::lemma_value(s, g, session.guesses_left + 1);
}

/// The budget is one below the value that it is reckoned from, none where there is
/// nothing to miss, and six where no value is known.
pub proof fn lemma_budget(minimax: Option<u32>)
    ensures
        minimax matches Some(v) ==> v > 0 ==> budget(minimax) + 1 == v,
        minimax == Some(0u32) ==> budget(minimax) == 0,
        minimax is None ==> budget(minimax) == 6,
{
}

/// What an answer costs the player of whom it is known to leave them at `v`: `v`, and a
/// miss where the letter does not stand.
pub proof fn lemma_answer_cost(part: (u32, Vec<usize>), v: u32)
    ensures
        part.0 != 0 ==> answer_cost(part, Some(v)) == v,
        part.0 == 0 ==> answer_cost(part, Some(v)) == v + 1,
        answer_cost(part, None) >= v,
{
}

/// What the table on disk has for an answer is used: an exact value as it is, and nothing
/// where there is none. One word needs no entry.
pub proof fn lemma_value_found<D: Fn(u128) -> Option<u32>>(
    words: Seq<Vec<u8>>,
    idx: Seq<usize>,
    masked: u32,
    disk: D,
    held: Option<u32>,
    v: Option<u32>,
)
    requires
        forall|o: Option<u32>| #[trigger] disk.ensures((serving_key(words, idx, masked),), o) ==> o == held,
        part_known(words, idx, masked, disk, v),
    ensures
        idx.len() <= 1 ==> v == Some(0u32),
        idx.len() > 1 ==> (held matches Some(packed) ==> tt_bound(packed) == 0 ==> v == Some(tt_value(packed))),
        idx.len() > 1 ==> (held matches Some(packed) ==> tt_bound(packed) != 0 ==> v is None),
        idx.len() > 1 && held is None ==> v is None,
{
    if idx.len() > 1 {
        let e = choose|e: Option<TtEntry>| #[trigger]
            stored(words, idx, masked, disk, e) && v == match e {
                Some(entry) => Some(entry.value),
                None => None,
            };
        lemma_entry_found(words, idx, masked, disk, held, e);
    }
}

/// The best letter of the position before the guess is the one that an exact entry on
/// disk names.
pub proof fn lemma_letter_found<D: Fn(u128) -> Option<u32>>(
    words: Seq<Vec<u8>>,
    idx: Seq<usize>,
    masked: u32,
    disk: D,
    held: Option<u32>,
    letter: Option<u8>,
)
    requires
        forall|o: Option<u32>| #[trigger] disk.ensures((serving_key(words, idx, masked),), o) ==> o == held,
        letter_known(words, idx, masked, disk, letter),
    ensures
        held matches Some(packed) ==> tt_bound(packed) == 0 ==> letter == tt_letter(packed),
        held matches Some(packed) ==> tt_bound(packed) != 0 ==> letter is None,
        held is None ==> letter is None,
{
    let e = choose|e: Option<TtEntry>| #[trigger]
        stored(words, idx, masked, disk, e) && letter == match e {
            Some(entry) => entry.best_letter,
            None => None,
        };
    lemma_entry_found(words, idx, masked, disk, held, e);
}

} // verus!
