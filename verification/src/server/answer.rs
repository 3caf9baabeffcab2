//! Committing the referee's answer to a guess and reporting it.
use vstd::prelude::*;

use crate::game::letters::{
    bit, bit_of, holds, is_lower, lemma_add_letter, lemma_bit_ops, lemma_bit_single, lemma_bits_below,
    lemma_mask_bits, place_mask,
};
use crate::game::rules::{at, occurs};
use crate::server::encoding::{
    base64_text, encode_bitvec, is_bitvec, plain_text, upper, upper_string, upper_text, word_string,
};
use crate::server::referee::{is_worst, worst_part, GuessPlan};
use crate::server::session::{lemma_answer_possible, lemma_possible, seen, uncovered, GameSession, GuessError, HIDDEN};
use crate::solver::partition::{is_partition, lemma_group};
use crate::solver::required::lemma_add_counts;
use crate::text::byte_char;

verus! {

/// The response to a guess.
#[derive(Debug)]
pub struct GuessResponse {
    /// Where the letter stands; `None` for a miss.
    pub positions: Option<Vec<usize>>,
    /// Revealed letters in upper case, underscores where none is.
    pub pattern: String,
    pub guesses_left: u32,
    /// The wrong guesses in upper case, in order.
    pub wrong_letters: Vec<String>,
    pub game_over: bool,
    pub won: bool,
    /// A word that was possible to the end, once the game is over.
    pub example_word: Option<String>,
    /// The possible words as a base64 bit vector.
    pub valid_words_bitvec: String,
    /// "solved" or "degraded".
    pub solve_status: &'static str,
}

/// `list` holds the places of a mask in increasing order.
pub open spec fn lists_places(mask: u32, list: Seq<usize>) -> bool {
    &&& forall|s: int, t: int| 0 <= s < t < list.len() ==> list[s] < list[t]
    &&& forall|t: int| 0 <= t < list.len() ==> bit(mask, (#[trigger] list[t]) as int)
    &&& forall|j: int| #[trigger] bit(mask, j) ==> list.contains(j as usize)
}

/// The session after the referee has answered a guess with a part.
pub open spec fn answered(before: GameSession, letter: u8, part: (u32, Vec<usize>), after: GameSession) -> bool {
    &&& after.word_length == before.word_length
    &&& after.guesses_allowed == before.guesses_allowed
    &&& after.masked == before.masked | bit_of(letter)
    &&& after.remaining@ == part.1@
    &&& after.generation == before.generation + 1
    &&& if part.0 == 0 {
        &&& after.pattern@ == before.pattern@
        &&& after.wrong_letters@ == before.wrong_letters@.push(letter)
        &&& after.game_over == (before.guesses_left == 0)
        &&& !after.won
        &&& after.guesses_left == if before.guesses_left == 0 {
            0
        } else {
            before.guesses_left - 1
        }
    } else {
        &&& after.pattern@ == uncovered(before.pattern@, letter, part.0)
        &&& after.wrong_letters@ == before.wrong_letters@
        &&& after.guesses_left == before.guesses_left
        &&& after.game_over == !after.pattern@.contains(HIDDEN)
        &&& after.won == after.game_over
    }
}

/// The response tells what the session has come to.
pub open spec fn reports(words: Seq<Vec<u8>>, session: GameSession, mask: u32, degraded: bool, r: GuessResponse) -> bool {
    &&& match r.positions {
        None => mask == 0,
        Some(list) => mask != 0 && lists_places(mask, list@),
    }
    &&& r.pattern@ == upper_text(session.pattern@)
    &&& r.guesses_left == session.guesses_left
    &&& r.wrong_letters@.len() == session.wrong_letters@.len()
    &&& forall|t: int|
        0 <= t < r.wrong_letters@.len() ==> (#[trigger] r.wrong_letters@[t])@ == seq![
            byte_char(upper(session.wrong_letters@[t])),
        ]
    &&& r.game_over == session.game_over
    &&& r.won == session.won
    &&& match r.example_word {
        None => !session.game_over,
        Some(w) => session.game_over && w@ == plain_text(words[session.remaining@[0] as int]@),
    }
    &&& exists|bits: Seq<u8>| #[trigger]
        is_bitvec(bits, session.remaining@, words.len()) && r.valid_words_bitvec@ == base64_text(bits)
    &&& r.solve_status@ == if degraded {
        "degraded"@
    } else {
        "solved"@
    }
}

/// A letter that is not in a letter set is not seen.
proof fn lemma_not_seen(w: Seq<u8>, masked: u32, l: u8)
    requires
        is_lower(l),
        !holds(masked, l),
    ensures
        !seen(w, masked).contains(l),
{
    if seen(w, masked).contains(l) {
        let j = choose|j: int| 0 <= j < seen(w, masked).len() && seen(w, masked)[j] == l;
        assert(holds(masked, w[j]));
    }
}

/// A session stays in order when the referee answers a guess.
pub proof fn lemma_answered_ok(words: Seq<Vec<u8>>, before: GameSession, letter: u8, parts: Seq<(u32, Vec<usize>)>, b: int, after: GameSession)
    requires
        before.ok(words),
        words.len() <= usize::MAX,
        !before.game_over,
        is_lower(letter),
        !holds(before.masked, letter),
        is_partition(words, before.remaining@, letter, parts),
        0 <= b < parts.len(),
        answered(before, letter, parts[b], after),
    ensures
        after.ok(words),
{
    let m = parts[b].0;
    let idx = before.remaining@;
    lemma_possible(words, before.masked, before.pattern@);
    assert forall|i: int| 0 <= i < words.len() implies (#[trigger] words[i])@.len() <= 32 by {}
    lemma_group(words, idx, letter, m);
    lemma_answer_possible(words, before.masked, before.pattern@, letter, m);
    lemma_add_letter(before.masked, letter);
    lemma_add_counts(before.masked, letter, 26);
    lemma_bit_ops(before.masked, bit_of(letter));
    lemma_bit_single((letter - 97) as u32);
    let part = parts[b].1@;
    assert(part.len() > 0);
    assert(part.contains(part[0]));
    let x = words[part[0] as int]@;
    lemma_mask_bits(x, letter);
    assert(idx.contains(part[0]));
    assert(seen(x, before.masked) == before.pattern@);
    lemma_not_seen(x, before.masked, letter);
    assert(before.wrong_letters@.contains(letter) == (holds(before.masked, letter) && !before.pattern@.contains(letter)));
    assert(after.pattern@ =~= uncovered(before.pattern@, letter, m)) by {
        if m == 0 {
            assert forall|j: int| !#[trigger] bit(m, j) by {
                assert(bit(m, j) == at(x, j, letter));
                assert(!occurs(letter, x));
            }
        }
    }
    assert forall|c: u8| #[trigger] after.wrong_letters@.contains(c) == (holds(after.masked, c) && !after.pattern@.contains(c)) by {
        assert(before.wrong_letters@.contains(c) == (holds(before.masked, c) && !before.pattern@.contains(c)));
        assert(holds(after.masked, c) == (holds(before.masked, c) || c == letter));
        if m == 0 {
            assert(after.wrong_letters@ == before.wrong_letters@.push(letter));
            if c == letter {
                assert(after.wrong_letters@[after.wrong_letters@.len() - 1] == c);
            } else if before.wrong_letters@.contains(c) {
                let t = choose|t: int| 0 <= t < before.wrong_letters@.len() && before.wrong_letters@[t] == c;
                assert(after.wrong_letters@[t] == c);
            } else if after.wrong_letters@.contains(c) {
                let t = choose|t: int| 0 <= t < after.wrong_letters@.len() && after.wrong_letters@[t] == c;
                assert(before.wrong_letters@[t] == c);
            }
        } else {
            let p = before.pattern@;
            let q = after.pattern@;
            if c == letter {
                let j = choose|j: int| #[trigger] at(x, j, letter);
                assert(bit(m, j));
                assert(q[j] == letter);
                assert(q.contains(letter));
            } else {
                if p.contains(c) {
                    let j = choose|j: int| 0 <= j < p.len() && p[j] == c;
                    if holds(before.masked, c) {
                        assert(seen(x, before.masked)[j] == c);
                        assert(bit(m, j) == at(x, j, letter));
                        assert(q[j] == c);
                    }
                }
                if q.contains(c) {
                    let j = choose|j: int| 0 <= j < q.len() && q[j] == c;
                    assert(p[j] == c);
                }
            }
        }
    }
    assert(after.wrong_letters@.no_duplicates()) by {
        if m == 0 {
            assert(!before.wrong_letters@.contains(letter));
        }
    }
    lemma_possible(words, after.masked, after.pattern@);
    if m == 0 {
        assert(before.pattern@.contains(HIDDEN));
    }
}

/// The places of a mask in increasing order.
pub fn places_of(mask: u32) -> (list: Vec<usize>)
    ensures
        lists_places(mask, list@),
        forall|j: usize| #[trigger] list@.contains(j) <==> j < 32 && (mask >> (j as u32)) & 1 == 1,
{
    let mut list: Vec<usize> = Vec::new();
    let mut j: u32 = 0;
    while j < 32
        invariant
            j <= 32,
            forall|s: int, t: int| 0 <= s < t < list@.len() ==> list@[s] < list@[t],
            forall|t: int| 0 <= t < list@.len() ==> (#[trigger] list@[t]) < j && bit(mask, list@[t] as int),
            forall|i: int| 0 <= i < j && #[trigger] bit(mask, i) ==> list@.contains(i as usize),
        decreases 32 - j,
    {
        let ghost before = list@;
        if (mask >> j) & 1 == 1 {
            list.push(j as usize);
        }
        proof {
            assert forall|i: int| 0 <= i < j + 1 && #[trigger] bit(mask, i) implies list@.contains(i as usize) by {
                if i < j {
                    let t = choose|t: int| 0 <= t < before.len() && before[t] == i as usize;
                    assert(list@[t] == i as usize);
                } else {
                    assert(list@[list@.len() - 1] == i as usize);
                }
            }
        }
        j += 1;
    }
    proof {
        assert forall|j: usize| #[trigger] list@.contains(j) <==> j < 32 && (mask >> (j as u32)) & 1 == 1 by {
            assert(bit(mask, j as int) == (j < 32 && (mask >> (j as u32)) & 1 == 1));
        }
    }
    list
}

/// The letters in upper case, each as a text of its own.
fn upper_letters(letters: &[u8]) -> (r: Vec<String>)
    ensures
        r@.len() == letters@.len(),
        forall|t: int| 0 <= t < r@.len() ==> (#[trigger] r@[t])@ == seq![byte_char(upper(letters@[t]))],
{
    let mut r: Vec<String> = Vec::new();
    let mut i: usize = 0;
    while i < letters.len()
        invariant
            i <= letters@.len(),
            r@.len() == i,
            forall|t: int| 0 <= t < i ==> (#[trigger] r@[t])@ == seq![byte_char(upper(letters@[t]))],
        decreases letters@.len() - i,
    {
        let mut one: Vec<u8> = Vec::new();
        one.push(letters[i]);
        let text = upper_string(one.as_slice());
        assert(text@ =~= seq![byte_char(upper(letters@[i as int]))]);
        r.push(text);
        i += 1;
    }
    r
}

/// Whether every letter has been revealed.
fn all_revealed(pattern: &Vec<u8>) -> (r: bool)
    ensures
        r == !pattern@.contains(HIDDEN),
{
    let mut i: usize = 0;
    while i < pattern.len()
        invariant
            i <= pattern@.len(),
            forall|t: int| 0 <= t < i ==> pattern@[t] != HIDDEN,
        decreases pattern@.len() - i,
    {
        if pattern[i] == HIDDEN {
            return false;
        }
        i += 1;
    }
    true
}

/// Describe a session after a guess was answered at the places of `mask`.
pub fn describe(words: &[Vec<u8>], session: &GameSession, mask: u32, degraded: bool) -> (r: GuessResponse)
    requires
        session.ok(words@),
    ensures
        reports(words@, *session, mask, degraded, r),
{
    let n: usize = words.len();
    proof {
        lemma_possible(words@, session.masked, session.pattern@);
        assert(session.remaining@[0] < words@.len());
    }
    let positions: Option<Vec<usize>> = if mask == 0 {
        None
    } else {
        Some(places_of(mask))
    };
    let example_word: Option<String> = if session.game_over {
        Some(word_string(words[session.remaining[0]].as_slice()))
    } else {
        None
    };
    GuessResponse {
        positions,
        pattern: upper_string(session.pattern.as_slice()),
        guesses_left: session.guesses_left,
        wrong_letters: upper_letters(session.wrong_letters.as_slice()),
        game_over: session.game_over,
        won: session.won,
        example_word,
        valid_words_bitvec: encode_bitvec(session.remaining.as_slice(), n),
        solve_status: if degraded {
            "degraded"
        } else {
            "solved"
        },
    }
}

/// Put a letter at the places of a mask.
fn uncover(pattern: &Vec<u8>, letter: u8, mask: u32) -> (r: Vec<u8>)
    requires
        pattern@.len() <= 32,
    ensures
        r@ == uncovered(pattern@, letter, mask),
{
    let mut r: Vec<u8> = Vec::new();
    let mut j: usize = 0;
    while j < pattern.len()
        invariant
            j <= pattern@.len() <= 32,
            r@.len() == j,
            forall|t: int|
                0 <= t < j ==> #[trigger] r@[t] == if bit(mask, t) {
                    letter
                } else {
                    pattern@[t]
                },
        decreases pattern@.len() - j,
    {
        let p: u32 = j as u32;
        if (mask >> p) & 1 == 1 {
            r.push(letter);
        } else {
            r.push(pattern[j]);
        }
        j += 1;
    }
    assert(r@ =~= uncovered(pattern@, letter, mask));
    r
}

/// Answer a guess with the part that is worst for the player. `values` are the
/// values of the parts, as far as they were found; `any_timeout` tells whether a
/// search ran out of time.
pub fn commit_guess(
    session: &mut GameSession,
    words: &[Vec<u8>],
    plan: &GuessPlan,
    values: &[Option<u32>],
    any_timeout: bool,
) -> (r: Result<GuessResponse, GuessError>)
    requires
        old(session).ok(words@),
        plan.generation == old(session).generation ==> plan.fits(words@, *old(session)),
        values@.len() == plan.parts@.len(),
        forall|a: int| 0 <= a < values@.len() ==> ((#[trigger] values@[a]) matches Some(v) ==> v < u32::MAX),
    ensures
        final(session).ok(words@),
        match r {
            Err(e) => e == GuessError::Stale && plan.generation != old(session).generation && *final(session) == *old(session),
            Ok(response) => plan.generation == old(session).generation && exists|b: int| #[trigger]
                is_worst(plan.parts@, values@, b) && answered(*old(session), plan.letter, plan.parts@[b], *final(session)) && reports(
                    words@,
                    *final(session),
                    plan.parts@[b].0,
                    any_timeout && plan.unsolved@.len() > 0,
                    response,
                ),
        },
{
    if session.generation != plan.generation {
        return Err(GuessError::Stale);
    }
    let n: usize = words.len();
    let ghost before = *session;
    proof {
        assert(before.remaining@.len() > 0);
        let w = place_mask(words@[before.remaining@[0] as int]@, plan.letter);
        assert(crate::solver::partition::has_part(plan.parts@, w));
        lemma_bits_below(before.masked, 26);
    }
    let b: usize = worst_part(&plan.parts, values);
    let mask: u32 = plan.parts[b].0;
    let members: Vec<usize> = plan.parts[b].1.clone();
    assert(members@ =~= plan.parts@[b as int].1@);
    session.masked = plan.new_masked;
    session.remaining = members;
    session.generation = session.generation + 1;
    if mask == 0 {
        session.wrong_letters.push(plan.letter);
        if session.guesses_left == 0 {
            session.game_over = true;
            session.won = false;
        } else {
            session.guesses_left = session.guesses_left - 1;
        }
    } else {
        session.pattern = uncover(&session.pattern, plan.letter, mask);
    }
    if !session.game_over && all_revealed(&session.pattern) {
        session.game_over = true;
        session.won = true;
    }
    proof {
        assert(answered(before, plan.letter, plan.parts@[b as int], *session));
        lemma_answered_ok(words@, before, plan.letter, plan.parts@, b as int, *session);
        assert(is_worst(plan.parts@, values@, b as int));
    }
    let degraded: bool = plan.unsolved.len() > 0 && any_timeout;
    let response = describe(words, session, mask, degraded);
    Ok(response)
}

} // verus!
