//! What the player sees: the revealed pattern, the guessed letters, the misses.
use vstd::prelude::*;

use crate::game::letters::{holds, is_lower, lower_word, LetterSet, ALL_LETTERS};
use crate::game::rules::{at, occurs, same_places};
use crate::solver::patterns::{fits, is_pattern, lemma_fits_places, pattern_letters};
use crate::game::letters::{lemma_test_letter, letter_bit};
use crate::text::byte_char;

verus! {

/// A pattern representing the current revealed state of the word: lowercase ASCII
/// bytes where a letter is revealed, zero where none is.
#[derive(Clone, Debug, PartialEq, Eq, Hash)]
pub struct Pattern {
    slots: Vec<u8>,
}

/// The text of the first `n` slots: letters or underscores, with spaces between.
pub open spec fn slot_text(p: Seq<u8>, n: nat) -> Seq<char>
    decreases n,
{
    if n == 0 {
        Seq::empty()
    } else {
        let before = slot_text(p, (n - 1) as nat);
        let spaced = if n == 1 {
            before
        } else {
            before.push(' ')
        };
        spaced.push(
            if p[n - 1] == 0 {
                '_'
            } else {
                byte_char(p[n - 1])
            },
        )
    }
}

impl View for Pattern {
    type V = Seq<u8>;

    closed spec fn view(&self) -> Seq<u8> {
        self.slots@
    }
}

impl Pattern {
    /// Create a fully hidden pattern of the given length.
    pub fn blank(len: usize) -> (r: Self)
        ensures
            r@ == crate::solver::patterns::blank(len as nat),
    {
        let mut slots: Vec<u8> = Vec::new();
        let mut i: usize = 0;
        while i < len
            invariant
                i <= len,
                slots@.len() == i,
                forall|t: int| 0 <= t < i ==> #[trigger] slots@[t] == 0,
            decreases len - i,
        {
            slots.push(0);
            i += 1;
        }
        assert(slots@ =~= crate::solver::patterns::blank(len as nat));
        Pattern { slots }
    }

    /// Word length.
    pub fn len(&self) -> (r: usize)
        ensures
            r == self@.len(),
    {
        self.slots.len()
    }

    /// Whether the pattern has zero length.
    pub fn is_empty(&self) -> (r: bool)
        ensures
            r == (self@.len() == 0),
    {
        self.slots.len() == 0
    }

    /// Access the raw slots.
    pub fn slots(&self) -> (r: &[u8])
        ensures
            r@ == self@,
    {
        self.slots.as_slice()
    }

    /// A new pattern with the letter put at all given positions.
    pub fn reveal_letter(&self, letter: u8, positions: &[usize]) -> (r: Self)
        requires
            forall|t: int| 0 <= t < positions@.len() ==> (#[trigger] positions@[t]) < self@.len(),
        ensures
            r@.len() == self@.len(),
            forall|j: int|
                0 <= j < self@.len() ==> #[trigger] r@[j] == if positions@.contains(j as usize) {
                    letter
                } else {
                    self@[j]
                },
    {
        let mut slots: Vec<u8> = self.slots.clone();
        assert(slots@ =~= self.slots@);
        let len: usize = slots.len();
        let mut i: usize = 0;
        while i < positions.len()
            invariant
                i <= positions@.len(),
                len == self.slots@.len(),
                slots@.len() == len,
                forall|t: int| 0 <= t < positions@.len() ==> (#[trigger] positions@[t]) < len,
                forall|j: int|
                    0 <= j < len ==> #[trigger] slots@[j] == if positions@.take(i as int).contains(j as usize) {
                        letter
                    } else {
                        self.slots@[j]
                    },
            decreases positions@.len() - i,
        {
            let pos: usize = positions[i];
            let ghost before = slots@;
            slots.set(pos, letter);
            proof {
                let t0 = positions@.take(i as int);
                let t1 = positions@.take(i + 1);
                assert(t1 =~= t0.push(pos));
                assert forall|j: int| 0 <= j < len implies #[trigger] slots@[j] == if t1.contains(j as usize) {
                    letter
                } else {
                    self.slots@[j]
                } by {
                    if t0.contains(j as usize) {
                        let x = choose|x: int| 0 <= x < t0.len() && t0[x] == j as usize;
                        assert(t1[x] == j as usize);
                    }
                    if j == pos {
                        assert(t1[t1.len() - 1] == j as usize);
                    } else if t1.contains(j as usize) {
                        let x = choose|x: int| 0 <= x < t1.len() && t1[x] == j as usize;
                        assert(x < t0.len());
                        assert(t0[x] == j as usize);
                    }
                    assert(before[j] == if t0.contains(j as usize) { letter } else { self.slots@[j] });
                }
            }
            i += 1;
        }
        proof {
            assert(positions@.take(i as int) =~= positions@);
        }
        Pattern { slots }
    }

    /// Whether a word matches this pattern: revealed letters agree, and no hidden
    /// place of the word holds a revealed letter.
    pub fn matches_word(&self, word: &[u8]) -> (r: bool)
        requires
            is_pattern(self@),
            word@.len() == self@.len() ==> lower_word(word@),
        ensures
            r == fits(word@, self@),
    {
        if word.len() != self.slots.len() {
            return false;
        }
        let ghost p = self@;
        let ghost w = word@;
        let revealed: LetterSet = pattern_letters(self.slots.as_slice());
        let mut i: usize = 0;
        while i < word.len()
            invariant
                i <= w.len(),
                w == word@,
                p == self.slots@,
                p.len() == w.len(),
                is_pattern(p),
                lower_word(w),
                forall|l: u8| #[trigger] holds(revealed, l) == (l != 0 && occurs(l, p)),
                forall|j: int| 0 <= j < i && #[trigger] p[j] != 0 ==> w[j] == p[j],
                forall|j: int| 0 <= j < i && #[trigger] p[j] == 0 ==> !occurs(w[j], p),
            decreases w.len() - i,
        {
            let slot: u8 = self.slots[i];
            let b: u8 = word[i];
            proof {
                assert(is_lower(w[i as int]));
                lemma_test_letter(revealed, b);
                if fits(w, p) {
                    lemma_fits_places(w, p);
                }
            }
            if slot != 0 {
                if slot != b {
                    assert(p[i as int] != 0 && w[i as int] != p[i as int]);
                    return false;
                }
            } else if revealed & letter_bit(b) != 0 {
                assert(p[i as int] == 0 && occurs(w[i as int], p));
                return false;
            }
            i += 1;
        }
        proof {
            assert forall|l: u8| l != 0 && #[trigger] occurs(l, p) implies same_places(l, w, p) by {
                assert forall|j: int| at(w, j, l) == at(p, j, l) by {
                    if 0 <= j < w.len() {
                        if p[j] == 0 {
                            assert(!occurs(w[j], p));
                        } else {
                            assert(w[j] == p[j]);
                        }
                    }
                }
            }
        }
        true
    }

    /// Display as a string like `_ a _ _ e`.
    pub fn display(&self) -> (r: String)
        ensures
            r@ == slot_text(self@, self@.len()),
    {
        let mut out = String::new();
        let mut i: usize = 0;
        while i < self.slots.len()
            invariant
                i <= self.slots@.len(),
                out@ == slot_text(self.slots@, i as nat),
            decreases self.slots@.len() - i,
        {
            if i > 0 {
                out.push(' ');
            }
            let s: u8 = self.slots[i];
            if s == 0 {
                out.push('_');
            } else {
                out.push(s as char);
            }
            i += 1;
        }
        out
    }
}

/// The state of an ongoing game, from the guesser's perspective.
#[derive(Clone, Debug, PartialEq, Eq, Hash)]
pub struct GameState {
    /// Current revealed pattern.
    pub pattern: Pattern,
    /// Letters guessed so far.
    pub guessed: LetterSet,
    /// Number of misses so far.
    pub misses: u32,
}

impl GameState {
    /// Start a new game with the given word length.
    pub fn new(word_len: usize) -> (r: Self)
        ensures
            r.pattern@ == crate::solver::patterns::blank(word_len as nat),
            r.guessed == 0,
            r.misses == 0,
    {
        GameState { pattern: Pattern::blank(word_len), guessed: 0, misses: 0 }
    }

    /// Letters not yet guessed.
    pub fn remaining_letters(&self) -> (r: LetterSet)
        ensures
            r == ALL_LETTERS & !self.guessed,
            forall|l: u8| #[trigger] holds(r, l) == (is_lower(l) && !holds(self.guessed, l)),
    {
        proof {
            crate::game::letters::lemma_all_letters();
            crate::game::letters::lemma_has_ops(ALL_LETTERS, !self.guessed);
            crate::game::letters::lemma_has_ops(self.guessed, 0);
        }
        ALL_LETTERS & !self.guessed
    }

    /// Whether the word is fully revealed.
    pub fn is_solved(&self) -> (r: bool)
        ensures
            r == forall|j: int| 0 <= j < self.pattern@.len() ==> #[trigger] self.pattern@[j] != 0,
    {
        let slots = self.pattern.slots();
        let mut i: usize = 0;
        while i < slots.len()
            invariant
                i <= slots@.len(),
                slots@ == self.pattern@,
                forall|j: int| 0 <= j < i ==> #[trigger] slots@[j] != 0,
            decreases slots@.len() - i,
        {
            if slots[i] == 0 {
                assert(self.pattern@[i as int] == 0);
                return false;
            }
            i += 1;
        }
        true
    }
}

/// Final outcome of a game.
#[derive(Clone, Debug, PartialEq, Eq)]
pub struct Outcome {
    /// Total misses in the game.
    pub misses: u32,
}

/// A pattern is shown with one character for each place, a space between one and the next,
/// the letter where it is revealed and an underscore where it is not.
pub proof fn lemma_slot_text(p: Seq<u8>, n: nat)
    requires
        n <= p.len(),
    ensures
        n > 0 ==> slot_text(p, n).len() == 2 * n - 1,
        n == 0 ==> slot_text(p, n).len() == 0,
        forall|j: int| 0 <= j < n && #[trigger] p[j] == 0 ==> slot_text(p, n)[2 * j] == '_',
        forall|j: int| 0 <= j < n && #[trigger] p[j] != 0 ==> slot_text(p, n)[2 * j] as int == p[j],
        forall|k: int| 0 <= k < slot_text(p, n).len() && k % 2 == 1 ==> #[trigger] slot_text(p, n)[k] == ' ',
    decreases n,
{
    if n > 0 {
        lemma_slot_text(p, (n - 1) as nat);
        let before = slot_text(p, (n - 1) as nat);
        assert forall|k: int| 0 <= k < slot_text(p, n).len() && k % 2 == 1 implies #[trigger] slot_text(p, n)[k] == ' ' by {
            if k < before.len() {
                assert(before[k] == ' ');
            }
        }
    }
}

/// A word matches a pattern exactly where they have one length, the word has every revealed
/// letter at its place, and no letter of the pattern stands in it at a hidden place.
pub proof fn lemma_matches(word: Seq<u8>, p: Seq<u8>)
    requires
        is_pattern(p),
        lower_word(word),
    ensures
        fits(word, p) <==> word.len() == p.len() && forall|j: int|
            0 <= j < p.len() ==> (#[trigger] p[j] != 0 ==> word[j] == p[j]) && (p[j] == 0 ==> !p.contains(word[j])),
{
    if fits(word, p) {
        lemma_fits_places(word, p);
        assert forall|j: int| 0 <= j < p.len() implies (#[trigger] p[j] != 0 ==> word[j] == p[j]) && (p[j] == 0 ==> !p.contains(
            word[j],
        )) by {
            assert(is_lower(word[j]));
            if p[j] == 0 && p.contains(word[j]) {
                let k = choose|k: int| 0 <= k < p.len() && p[k] == word[j];
                assert(at(p, k, word[j]));
                assert(occurs(word[j], p));
            }
        }
    } else if word.len() == p.len() && forall|j: int|
        0 <= j < p.len() ==> (#[trigger] p[j] != 0 ==> word[j] == p[j]) && (p[j] == 0 ==> !p.contains(word[j])) {
        assert forall|l: u8| l != 0 && #[trigger] occurs(l, p) implies same_places(l, word, p) by {
            assert forall|j: int| at(word, j, l) == at(p, j, l) by {
                if 0 <= j < p.len() && p[j] == 0 && word[j] == l {
                    let k = choose|k: int| at(p, k, l);
                    assert(p[k] == l);
                    assert(p.contains(word[j]));
                }
            }
        }
    }
}

} // verus!
