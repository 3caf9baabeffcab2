//! Game sessions: what a player has seen so far and which words remain possible.
use vstd::prelude::*;

use crate::game::letters::{
    bit, bit_of, bits_below, holds, is_lower, lemma_add_letter, lemma_bit_zero, lemma_bits_equal, lemma_has_zero,
    lemma_mask_bits, lemma_test_letter, letter_bit, lower_word, only_letters, place_mask, LetterSet,
};
use crate::game::rules::{at, same_places};
use crate::seqs::{lemma_filter, lemma_filter_all, lemma_filter_filter};
use crate::server::queue::MAX_SESSIONS;
use crate::solver::memoized::{all_indices, index_list, solvable, word_len};
use crate::solver::partition::group;
use crate::solver::signature::{idx_ok, sig, sig_rows};
use crate::solver::trust::{agree, reachable};

verus! {

/// The byte for a hidden place.
pub const HIDDEN: u8 = 95;

/// The misses allowed where nothing is known about the word list.
pub const DEFAULT_BUDGET: u32 = 6;

/// A word list that games are played on.
pub open spec fn playable(words: Seq<Vec<u8>>) -> bool {
    solvable(words) && words.len() > 0 && word_len(words) > 0
}

/// What the player sees of a word once the letters of `masked` have been guessed.
pub open spec fn seen(w: Seq<u8>, masked: u32) -> Seq<u8> {
    Seq::new(
        w.len(),
        |j: int|
            if holds(masked, w[j]) {
                w[j]
            } else {
                HIDDEN
            },
    )
}

/// The words that are consistent with everything the player has seen.
pub open spec fn possible(words: Seq<Vec<u8>>, masked: u32, pattern: Seq<u8>) -> Seq<usize> {
    all_indices(words.len()).filter(|i: usize| seen(words[i as int]@, masked) == pattern)
}

/// The pattern with letter `l` put at the places of `mask`.
pub open spec fn uncovered(pattern: Seq<u8>, l: u8, mask: u32) -> Seq<u8> {
    Seq::new(
        pattern.len(),
        |j: int|
            if bit(mask, j) {
                l
            } else {
                pattern[j]
            },
    )
}

/// A game in progress or over.
#[derive(Debug)]
pub struct GameSession {
    pub word_length: usize,
    /// Indices of the words that are still possible.
    pub remaining: Vec<usize>,
    /// The letters guessed so far.
    pub masked: LetterSet,
    /// Revealed letters, and `HIDDEN` where none is.
    pub pattern: Vec<u8>,
    /// The guesses that missed, in order.
    pub wrong_letters: Vec<u8>,
    pub guesses_allowed: u32,
    pub guesses_left: u32,
    pub game_over: bool,
    pub won: bool,
    /// Counts the committed guesses. A guess that was prepared for an earlier
    /// generation is stale.
    pub generation: u64,
}

impl GameSession {
    /// The game is lost.
    pub open spec fn lost(&self) -> bool {
        self.game_over && !self.won
    }

    /// What holds of every session on this word list.
    pub open spec fn ok(&self, words: Seq<Vec<u8>>) -> bool {
        &&& playable(words)
        &&& self.word_length == word_len(words)
        &&& self.pattern@.len() == self.word_length
        &&& self.remaining@ == possible(words, self.masked, self.pattern@)
        &&& self.remaining@.len() > 0
        &&& only_letters(self.masked)
        &&& self.generation == bits_below(self.masked, 26)
        &&& self.wrong_letters@.no_duplicates()
        &&& forall|c: u8| #[trigger]
            self.wrong_letters@.contains(c) == (holds(self.masked, c) && !self.pattern@.contains(c))
        &&& self.wrong_letters@.len() + self.guesses_left == self.guesses_allowed + if self.lost() {
            1int
        } else {
            0int
        }
        &&& self.won == !self.pattern@.contains(HIDDEN)
        &&& self.won ==> self.game_over
        &&& self.lost() ==> self.guesses_left == 0
    }
}

/// Every index below the count is in the list of all indices.
proof fn lemma_all_indices(n: nat)
    requires
        n <= usize::MAX,
    ensures
        forall|i: usize| #[trigger] all_indices(n).contains(i) == (i < n),
        all_indices(n).no_duplicates(),
        idx_ok(all_indices(n), n),
{
    let all = all_indices(n);
    assert forall|i: usize| #[trigger] all.contains(i) == (i < n) by {
        if i < n {
            assert(all[i as int] == i);
        }
    }
}

/// The possible words are those that look like the pattern.
pub proof fn lemma_possible(words: Seq<Vec<u8>>, masked: u32, pattern: Seq<u8>)
    requires
        words.len() <= usize::MAX,
    ensures
        idx_ok(possible(words, masked, pattern), words.len()),
        possible(words, masked, pattern).no_duplicates(),
        forall|i: usize| #[trigger]
            possible(words, masked, pattern).contains(i) == (i < words.len() && seen(words[i as int]@, masked) == pattern),
{
    lemma_all_indices(words.len());
    let all = all_indices(words.len());
    let p = possible(words, masked, pattern);
    lemma_filter(all, |i: usize| seen(words[i as int]@, masked) == pattern);
    assert forall|t: int| 0 <= t < p.len() implies #[trigger] p[t] < words.len() by {
        assert(p.contains(p[t]));
    }
}

/// A word looks like the pattern after the answer exactly when it looked like the
/// pattern before and gives that answer.
proof fn lemma_answer_seen(w: Seq<u8>, x: Seq<u8>, masked: u32, pattern: Seq<u8>, l: u8, m: u32)
    requires
        w.len() == x.len() <= 32,
        lower_word(w),
        lower_word(x),
        is_lower(l),
        !holds(masked, l),
        seen(x, masked) == pattern,
        place_mask(x, l) == m,
    ensures
        (seen(w, masked | bit_of(l)) == uncovered(pattern, l, m)) == (seen(w, masked) == pattern && place_mask(w, l) == m),
{
    let wider = masked | bit_of(l);
    lemma_add_letter(masked, l);
    lemma_mask_bits(w, l);
    lemma_mask_bits(x, l);
    let after = uncovered(pattern, l, m);
    if seen(w, masked) == pattern && place_mask(w, l) == m {
        assert forall|j: int| 0 <= j < w.len() implies seen(w, wider)[j] == #[trigger] after[j] by {
            assert(bit(m, j) == at(w, j, l));
            assert(seen(w, masked)[j] == pattern[j]);
        }
        assert(seen(w, wider) =~= after);
    }
    if seen(w, wider) == after {
        assert forall|j: int| 0 <= j < w.len() implies at(w, j, l) == #[trigger] at(x, j, l) by {
            assert(bit(m, j) == at(x, j, l));
            assert(seen(w, wider)[j] == after[j]);
            assert(seen(x, masked)[j] == pattern[j]);
        }
        assert forall|i: int| 0 <= i < 32 implies #[trigger] bit(place_mask(w, l), i) == bit(m, i) by {
            assert(at(w, i, l) == at(x, i, l));
        }
        lemma_bits_equal(place_mask(w, l), m);
        assert forall|j: int| 0 <= j < w.len() implies seen(w, masked)[j] == #[trigger] pattern[j] by {
            assert(seen(w, wider)[j] == after[j]);
            assert(bit(m, j) == at(w, j, l));
            assert(bit(m, j) == at(x, j, l));
            assert(seen(x, masked)[j] == pattern[j]);
        }
        assert(seen(w, masked) =~= pattern);
    }
}

/// The part of the possible words that gives an answer is what remains possible
/// once the answer has been seen.
pub proof fn lemma_answer_possible(words: Seq<Vec<u8>>, masked: u32, pattern: Seq<u8>, l: u8, m: u32)
    requires
        solvable(words),
        words.len() <= usize::MAX,
        is_lower(l),
        !holds(masked, l),
        group(words, possible(words, masked, pattern), l, m).len() > 0,
    ensures
        group(words, possible(words, masked, pattern), l, m) == possible(words, masked | bit_of(l), uncovered(pattern, l, m)),
{
    let all = all_indices(words.len());
    let p = possible(words, masked, pattern);
    let f = |i: usize| seen(words[i as int]@, masked) == pattern;
    let g = |i: usize| place_mask(words[i as int]@, l) == m;
    let h = |i: usize| seen(words[i as int]@, masked | bit_of(l)) == uncovered(pattern, l, m);
    let part = group(words, p, l, m);
    lemma_all_indices(words.len());
    lemma_possible(words, masked, pattern);
    lemma_filter(p, g);
    assert(part.contains(part[0]));
    assert(p.contains(part[0]));
    let x = words[part[0] as int]@;
    assert forall|i: int| 0 <= i < all.len() implies h(#[trigger] all[i]) == (f(all[i]) && g(all[i])) by {
        let w = words[all[i] as int]@;
        lemma_answer_seen(w, x, masked, pattern, l, m);
    }
    lemma_filter_filter(all, f, g, h);
}

/// Why a game could not be started.
#[derive(Debug, Clone, Copy, PartialEq, Eq, Structural)]
pub enum StartError {
    /// There are no words of that length.
    NoWords,
    /// There are too many sessions.
    Busy,
}

impl StartError {
    /// The message for the client.
    pub fn message(&self) -> (r: &'static str)
        ensures
            r@ == match *self {
                StartError::NoWords => "no words of that length"@,
                StartError::Busy => "server is busy, try again later"@,
            },
    {
        match self {
            StartError::NoWords => "no words of that length",
            StartError::Busy => "server is busy, try again later",
        }
    }
}

/// The misses allowed: one fewer than best play needs.
pub open spec fn budget(minimax: Option<u32>) -> u32 {
    match minimax {
        Some(v) => if v == 0 {
            0
        } else {
            (v - 1) as u32
        },
        None => DEFAULT_BUDGET,
    }
}

/// A fresh session has seen nothing of the words.
proof fn lemma_nothing_seen(words: Seq<Vec<u8>>, pattern: Seq<u8>)
    requires
        playable(words),
        words.len() <= usize::MAX,
        pattern.len() == word_len(words),
        forall|j: int| 0 <= j < pattern.len() ==> pattern[j] == HIDDEN,
    ensures
        possible(words, 0, pattern) == all_indices(words.len()),
{
    lemma_has_zero();
    let all = all_indices(words.len());
    lemma_all_indices(words.len());
    assert forall|i: int| 0 <= i < all.len() implies seen(words[(#[trigger] all[i]) as int]@, 0) == pattern by {
        let w = words[all[i] as int]@;
        assert forall|j: int| 0 <= j < w.len() implies !holds(0, #[trigger] w[j]) by {
            lemma_bit_zero();
        }
        assert(seen(w, 0) =~= pattern);
    }
    lemma_filter_all(all, |i: usize| seen(words[i as int]@, 0) == pattern);
}

proof fn lemma_no_bits(n: nat)
    ensures
        bits_below(0, n) == 0,
    decreases n,
{
    lemma_bit_zero();
    if n > 0 {
        lemma_no_bits((n - 1) as nat);
    }
}

/// Start a game on a word list. `sessions` is the number of games held.
pub fn start_game(words: &[Vec<u8>], minimax: Option<u32>, sessions: usize) -> (r: Result<GameSession, StartError>)
    requires
        words@.len() > 0 ==> playable(words@),
    ensures
        r == Err::<GameSession, StartError>(StartError::NoWords) <==> words@.len() == 0,
        r == Err::<GameSession, StartError>(StartError::Busy) <==> words@.len() > 0 && sessions >= MAX_SESSIONS,
        r matches Ok(s) ==> {
            &&& s.ok(words@)
            &&& s.remaining@ == all_indices(words@.len())
            &&& s.masked == 0
            &&& forall|j: int| 0 <= j < s.pattern@.len() ==> s.pattern@[j] == HIDDEN
            &&& s.wrong_letters@.len() == 0
            &&& s.guesses_allowed == budget(minimax)
            &&& s.guesses_left == s.guesses_allowed
            &&& !s.game_over && !s.won
            &&& s.generation == 0
        },
        r matches Err(StartError::Busy) <==> words@.len() > 0 && sessions >= 10_000,
        r matches Ok(s) ==> {
            &&& minimax matches Some(v) ==> s.guesses_allowed + 1 == v || v == 0 && s.guesses_allowed == 0
            &&& minimax is None ==> s.guesses_allowed == 6
            &&& s.word_length == words@[0]@.len()
            &&& s.remaining@.len() == words@.len()
            &&& s.pattern@ == Seq::new(words@[0]@.len(), |j: int| 95u8)
        },
{
    let n: usize = words.len();
    if n == 0 {
        return Err(StartError::NoWords);
    }
    let guesses_allowed: u32 = match minimax {
        Some(v) => if v == 0 {
            0
        } else {
            v - 1
        },
        None => DEFAULT_BUDGET,
    };
    if sessions >= MAX_SESSIONS {
        return Err(StartError::Busy);
    }
    let word_length: usize = words[0].len();
    let mut pattern: Vec<u8> = Vec::new();
    let mut j: usize = 0;
    while j < word_length
        invariant
            j <= word_length,
            pattern@.len() == j,
            forall|t: int| 0 <= t < j ==> pattern@[t] == HIDDEN,
        decreases word_length - j,
    {
        pattern.push(HIDDEN);
        j += 1;
    }
    let remaining = index_list(n);
    let wrong_letters: Vec<u8> = Vec::new();
    proof {
        assert(pattern@ =~= Seq::new(words@[0]@.len(), |j: int| 95u8));
        lemma_nothing_seen(words@, pattern@);
        lemma_bit_zero();
        lemma_no_bits(26);
        assert(pattern@[0] == HIDDEN);
    }
    Ok(
        GameSession {
            word_length,
            remaining,
            masked: 0,
            pattern,
            wrong_letters,
            guesses_allowed,
            guesses_left: guesses_allowed,
            game_over: false,
            won: false,
            generation: 0,
        },
    )
}

/// Why a guess was not taken.
#[derive(Debug, Clone, Copy, PartialEq, Eq, Structural)]
pub enum GuessError {
    /// The game has ended.
    GameOver,
    /// The guess is empty.
    Empty,
    /// The guess is not a letter.
    Invalid,
    /// The letter has been guessed before.
    AlreadyGuessed,
    /// The session has moved on since the guess was prepared.
    Stale,
}

impl GuessError {
    /// The message for the client.
    pub fn message(&self) -> (r: &'static str)
        ensures
            r@ == match *self {
                GuessError::GameOver => "game is over"@,
                GuessError::Empty => "empty letter"@,
                GuessError::Invalid => "invalid letter"@,
                GuessError::AlreadyGuessed => "letter already guessed"@,
                GuessError::Stale => "guess is stale (session moved on)"@,
            },
    {
        match self {
            GuessError::GameOver => "game is over",
            GuessError::Empty => "empty letter",
            GuessError::Invalid => "invalid letter",
            GuessError::AlreadyGuessed => "letter already guessed",
            GuessError::Stale => "guess is stale (session moved on)",
        }
    }
}

/// The letter that a character stands for, in either case.
pub open spec fn letter_of(c: char) -> Option<u8> {
    if 'a' <= c <= 'z' {
        Some(c as u8)
    } else if 'A' <= c <= 'Z' {
        Some((c as u8 + 32) as u8)
    } else {
        None
    }
}

/// What a guess is read as.
pub open spec fn guess_of(session: GameSession, text: Seq<char>) -> Result<u8, GuessError> {
    if session.game_over {
        Err(GuessError::GameOver)
    } else if text.len() == 0 {
        Err(GuessError::Empty)
    } else {
        match letter_of(text[0]) {
            None => Err(GuessError::Invalid),
            Some(l) => if holds(session.masked, l) {
                Err(GuessError::AlreadyGuessed)
            } else {
                Ok(l)
            },
        }
    }
}

/// Read a guess: the first character counts, in either case.
pub fn parse_guess(session: &GameSession, text: &str) -> (r: Result<u8, GuessError>)
    ensures
        r == guess_of(*session, text@),
        r matches Ok(l) ==> is_lower(l) && !holds(session.masked, l) && !session.game_over,
        r matches Ok(l) ==> text@.len() > 0 && (text@[0] as int == l || text@[0] as int == l - 32),
        r matches Err(GuessError::GameOver) <==> session.game_over,
        r matches Err(GuessError::Empty) <==> !session.game_over && text@.len() == 0,
        r matches Err(GuessError::Invalid) <==> !session.game_over && text@.len() > 0 && !('a' <= text@[0] <= 'z' || 'A' <= text@[0]
            <= 'Z'),
        r matches Err(GuessError::AlreadyGuessed) ==> exists|l: u8| #[trigger]
            holds(session.masked, l) && (text@[0] as int == l || text@[0] as int == l - 32),
        !(r matches Err(GuessError::Stale)),
{
    if session.game_over {
        return Err(GuessError::GameOver);
    }
    let mut chars = text.chars();
    match chars.next() {
        None => Err(GuessError::Empty),
        Some(c) => {
            let letter: u8 = if 'a' <= c && c <= 'z' {
                c as u8
            } else if 'A' <= c && c <= 'Z' {
                c as u8 + 32
            } else {
                return Err(GuessError::Invalid);
            };
            proof {
                lemma_test_letter(session.masked, letter);
            }
            if session.masked & letter_bit(letter) != 0 {
                return Err(GuessError::AlreadyGuessed);
            }
            Ok(letter)
        },
    }
}

/// A game only ever stands at positions that play from the full list can reach.
pub proof fn lemma_session_reachable(words: Seq<Vec<u8>>, session: GameSession)
    requires
        session.ok(words),
        words.len() <= usize::MAX,
    ensures
        reachable(words, all_indices(words.len()), 0, session.remaining@, session.masked),
        session.remaining@.no_duplicates(),
{
    let all = all_indices(words.len());
    let idx = session.remaining@;
    let m = session.masked;
    lemma_all_indices(words.len());
    lemma_possible(words, m, session.pattern@);
    lemma_bit_zero();
    assert(idx.contains(idx[0]));
    let x = words[idx[0] as int]@;
    assert forall|t: int| 0 <= t < idx.len() implies agree(words, 0, m, #[trigger] idx[t], idx[0]) by {
        assert(idx.contains(idx[t]));
        let w = words[idx[t] as int]@;
        assert forall|c: u8| #[trigger] holds(m, c) && !holds(0, c) implies same_places(c, w, x) by {
            assert forall|j: int| at(w, j, c) == at(x, j, c) by {
                if 0 <= j < w.len() {
                    assert(seen(w, m)[j] == seen(x, m)[j]);
                }
            }
        }
    }
    assert forall|j: usize|
        #![trigger all.contains(j)]
        all.contains(j) && agree(words, 0, m, j, idx[0]) implies sig_rows(words, idx, m).contains(sig(words[j as int]@, m)) by {
        let w = words[j as int]@;
        assert forall|p: int| 0 <= p < w.len() implies seen(w, m)[p] == #[trigger] seen(x, m)[p] by {
            if holds(m, w[p]) {
                assert(same_places(w[p], w, x));
                assert(at(w, p, w[p]) == at(x, p, w[p]));
            }
            if holds(m, x[p]) {
                assert(same_places(x[p], w, x));
                assert(at(w, p, x[p]) == at(x, p, x[p]));
            }
        }
        assert(seen(w, m) =~= seen(x, m));
        assert(idx.contains(j));
        let t = choose|t: int| 0 <= t < idx.len() && idx[t] == j;
        assert(sig_rows(words, idx, m)[t] == sig(w, m));
    }
}

} // verus!
