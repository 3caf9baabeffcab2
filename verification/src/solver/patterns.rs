//! Reveal patterns: what the player sees of a word once some letters have been
//! guessed. Zero stands for a hidden place.
use vstd::prelude::*;
use vstd::set_lib::{lemma_int_range, set_int_range};

use crate::game::letters::{
    bit, bit_of, holds, is_lower, lemma_add_letter, lemma_bit_ops, lemma_has_zero, lemma_mask_bits, lemma_mask_same,
    letter_bit, letters, lower_word, only_letters, place_mask, LetterSet,
};
use crate::game::rules::{at, occurs, same_places};
use crate::seqs::{lemma_filter, lemma_filter_all, lemma_filter_filter};
use crate::solver::memoized::all_indices;
use crate::solver::partition::group;
use crate::solver::signature::{idx_ok, list_ok};

verus! {

/// The word with only the letters of `m` shown.
pub open spec fn shown(w: Seq<u8>, m: u32) -> Seq<u8> {
    Seq::new(
        w.len(),
        |j: int|
            if holds(m, w[j]) {
                w[j]
            } else {
                0
            },
    )
}

/// The pattern is what some word of the list shows for some set of guesses.
pub open spec fn shows(words: Seq<Vec<u8>>, p: Seq<u8>) -> bool {
    exists|i: int, m: u32| 0 <= i < words.len() && p == #[trigger] shown(words[i]@, m)
}

/// Every pattern that some word of the list shows.
pub open spec fn pattern_set(words: Seq<Vec<u8>>) -> Set<Seq<u8>> {
    Set::new(|p: Seq<u8>| shows(words, p))
}

/// The word is possible where this pattern is seen: each letter of the pattern
/// stands in the word exactly where the pattern has it.
pub open spec fn fits(w: Seq<u8>, p: Seq<u8>) -> bool {
    w.len() == p.len() && forall|l: u8| l != 0 && #[trigger] occurs(l, p) ==> same_places(l, w, p)
}

/// The indices of the words that are possible where this pattern is seen.
pub open spec fn matching(words: Seq<Vec<u8>>, p: Seq<u8>) -> Seq<usize> {
    all_indices(words.len()).filter(|i: usize| fits(words[i as int]@, p))
}

/// The pattern with letter `l` put at the places of `mask`.
pub open spec fn reveal_at(p: Seq<u8>, l: u8, mask: u32) -> Seq<u8> {
    Seq::new(
        p.len(),
        |j: int|
            if bit(mask, j) {
                l
            } else {
                p[j]
            },
    )
}

/// The pattern with every place hidden.
pub open spec fn blank(k: nat) -> Seq<u8> {
    Seq::new(k, |j: int| 0u8)
}

/// Patterns hold letters and blanks only.
pub open spec fn is_pattern(p: Seq<u8>) -> bool {
    forall|j: int| 0 <= j < p.len() ==> #[trigger] p[j] == 0 || is_lower(p[j])
}

/// There are finitely many patterns.
pub proof fn lemma_patterns_finite(words: Seq<Vec<u8>>)
    ensures
        pattern_set(words).finite(),
{
    let n = words.len() as int;
    let width: int = 0x1_0000_0000;
    let f = |x: int| shown(words[x / width]@, (x % width) as u32);
    let range = set_int_range(0, n * width);
    lemma_int_range(0, n * width);
    range.lemma_map_finite(f);
    let image = range.map(f);
    assert forall|p: Seq<u8>| pattern_set(words).contains(p) implies image.contains(p) by {
        let (i, m) = choose|i: int, m: u32| 0 <= i < words.len() && p == #[trigger] shown(words[i]@, m);
        let x = i * width + m as int;
        assert(0 <= x < n * width) by (nonlinear_arith)
            requires
                0 <= i < n,
                0 <= m < width,
                x == i * width + m,
                width == 0x1_0000_0000,
        ;
        vstd::arithmetic::div_mod::lemma_fundamental_div_mod_converse(x, width, i, m as int);
        assert(range.contains(x));
        assert(f(x) == p);
    }
    assert(pattern_set(words).subset_of(image));
    vstd::set_lib::lemma_set_subset_finite(image, pattern_set(words));
}

/// A word is possible where it shows the pattern itself.
pub proof fn lemma_shown_fits(w: Seq<u8>, m: u32)
    requires
        lower_word(w),
    ensures
        fits(w, shown(w, m)),
        is_pattern(shown(w, m)),
        forall|l: u8| l != 0 ==> #[trigger] occurs(l, shown(w, m)) == (holds(m, l) && occurs(l, w)),
{
    let p = shown(w, m);
    assert forall|l: u8| l != 0 implies #[trigger] occurs(l, p) == (holds(m, l) && occurs(l, w)) by {
        if occurs(l, p) {
            let j = choose|j: int| #[trigger] at(p, j, l);
            assert(at(w, j, l));
        }
        if holds(m, l) && occurs(l, w) {
            let j = choose|j: int| #[trigger] at(w, j, l);
            assert(at(p, j, l));
        }
    }
    assert forall|l: u8| l != 0 && #[trigger] occurs(l, p) implies same_places(l, w, p) by {
        assert forall|j: int| at(w, j, l) == at(p, j, l) by {}
    }
    assert forall|j: int| 0 <= j < p.len() implies #[trigger] p[j] == 0 || is_lower(p[j]) by {
        assert(is_lower(w[j]));
    }
}

/// Where the word is possible, revealed places show its letters and letters that
/// the pattern lacks stand at hidden places.
pub proof fn lemma_fits_places(w: Seq<u8>, p: Seq<u8>)
    requires
        fits(w, p),
        is_pattern(p),
        lower_word(w),
    ensures
        forall|j: int| 0 <= j < p.len() && #[trigger] p[j] != 0 ==> w[j] == p[j],
        forall|j: int| 0 <= j < p.len() && #[trigger] p[j] == 0 ==> !occurs(w[j], p),
{
    assert forall|j: int| 0 <= j < p.len() && #[trigger] p[j] != 0 implies w[j] == p[j] by {
        let l = p[j];
        assert(at(p, j, l));
        assert(occurs(l, p));
        assert(same_places(l, w, p));
        assert(at(w, j, l));
    }
    assert forall|j: int| 0 <= j < p.len() && #[trigger] p[j] == 0 implies !occurs(w[j], p) by {
        let l = w[j];
        assert(is_lower(w[j]));
        if occurs(l, p) {
            assert(same_places(l, w, p));
            assert(at(w, j, l));
            assert(at(p, j, l));
        }
    }
}

/// Revealing the places of a letter that the pattern lacks.
pub proof fn lemma_reveal(w: Seq<u8>, p: Seq<u8>, l: u8)
    requires
        fits(w, p),
        is_pattern(p),
        lower_word(w),
        w.len() <= 32,
        is_lower(l),
        !occurs(l, p),
        occurs(l, w),
    ensures
        is_pattern(reveal_at(p, l, place_mask(w, l))),
        forall|c: u8| c != 0 ==> #[trigger] occurs(c, reveal_at(p, l, place_mask(w, l))) == (occurs(c, p) || c == l),
        forall|v: Seq<u8>|
            v.len() <= 32 && lower_word(v) ==> #[trigger] fits(v, reveal_at(p, l, place_mask(w, l))) == (fits(v, p)
                && place_mask(v, l) == place_mask(w, l)),
        forall|m: u32| p == #[trigger] shown(w, m) ==> reveal_at(p, l, place_mask(w, l)) == shown(w, m | bit_of(l)),
        forall|j: int| #[trigger] bit(place_mask(w, l), j) ==> 0 <= j < p.len() && p[j] == 0,
{
    let mask = place_mask(w, l);
    let q = reveal_at(p, l, mask);
    lemma_mask_bits(w, l);
    lemma_fits_places(w, p);
    assert forall|j: int| #[trigger] bit(mask, j) implies 0 <= j < p.len() && p[j] == 0 by {
        assert(at(w, j, l));
        if p[j] != 0 {
            assert(w[j] == p[j]);
            assert(at(p, j, l));
        }
    }
    assert forall|j: int| 0 <= j < q.len() implies #[trigger] q[j] == 0 || is_lower(q[j]) by {
        assert(p[j] == 0 || is_lower(p[j]));
    }
    assert forall|c: u8, j: int| c != 0 && c != l implies #[trigger] at(q, j, c) == at(p, j, c) by {
        if 0 <= j < p.len() {
            if bit(mask, j) {
                assert(p[j] == 0);
            }
        }
    }
    assert forall|j: int| #[trigger] at(q, j, l) == at(w, j, l) by {
        if 0 <= j < p.len() {
            assert(bit(mask, j) == at(w, j, l));
            assert(!at(p, j, l));
        }
    }
    assert forall|c: u8| c != 0 implies #[trigger] occurs(c, q) == (occurs(c, p) || c == l) by {
        if c == l {
            let j = choose|j: int| #[trigger] at(w, j, l);
            assert(at(q, j, l));
        } else {
            if occurs(c, p) {
                let j = choose|j: int| #[trigger] at(p, j, c);
                assert(at(q, j, c));
            }
            if occurs(c, q) {
                let j = choose|j: int| #[trigger] at(q, j, c);
                assert(at(p, j, c));
            }
        }
    }
    assert forall|v: Seq<u8>| v.len() <= 32 && lower_word(v) implies #[trigger] fits(v, q) == (fits(v, p) && place_mask(v, l) == mask) by {
        lemma_mask_same(v, w, l);
        if fits(v, q) {
            assert(occurs(l, q));
            assert(same_places(l, v, q));
            assert forall|j: int| at(v, j, l) == at(w, j, l) by {
                assert(at(v, j, l) == at(q, j, l));
            }
            assert forall|c: u8| c != 0 && #[trigger] occurs(c, p) implies same_places(c, v, p) by {
                assert(c != l);
                assert(occurs(c, q));
                assert(same_places(c, v, q));
                assert forall|j: int| at(v, j, c) == at(p, j, c) by {
                    assert(at(v, j, c) == at(q, j, c));
                }
            }
        }
        if fits(v, p) && place_mask(v, l) == mask {
            assert(same_places(l, v, w));
            assert forall|c: u8| c != 0 && #[trigger] occurs(c, q) implies same_places(c, v, q) by {
                if c == l {
                    assert forall|j: int| at(v, j, l) == at(q, j, l) by {
                        assert(at(v, j, l) == at(w, j, l));
                    }
                } else {
                    assert(occurs(c, p));
                    assert(same_places(c, v, p));
                    assert forall|j: int| at(v, j, c) == at(q, j, c) by {
                        assert(at(v, j, c) == at(p, j, c));
                    }
                }
            }
        }
    }
    assert forall|m: u32| p == #[trigger] shown(w, m) implies q == shown(w, m | bit_of(l)) by {
        lemma_add_letter(m, l);
        assert forall|j: int| 0 <= j < w.len() implies q[j] == shown(w, m | bit_of(l))[j] by {
            assert(bit(mask, j) == at(w, j, l));
            assert(p[j] == shown(w, m)[j]);
        }
        assert(q =~= shown(w, m | bit_of(l)));
    }
}

/// The words possible after an answer are a group of those possible before.
pub proof fn lemma_matching_child(words: Seq<Vec<u8>>, k: nat, p: Seq<u8>, i: int, l: u8)
    requires
        list_ok(words, k),
        k <= 32,
        0 <= i < words.len(),
        words.len() <= usize::MAX,
        fits(words[i]@, p),
        is_pattern(p),
        is_lower(l),
        !occurs(l, p),
        occurs(l, words[i]@),
    ensures
        matching(words, reveal_at(p, l, place_mask(words[i]@, l))) == group(
            words,
            matching(words, p),
            l,
            place_mask(words[i]@, l),
        ),
{
    let w = words[i]@;
    let m = place_mask(w, l);
    let q = reveal_at(p, l, m);
    lemma_reveal(w, p, l);
    let all = all_indices(words.len());
    lemma_filter_filter(
        all,
        |x: usize| fits(words[x as int]@, p),
        |x: usize| place_mask(words[x as int]@, l) == m,
        |x: usize| fits(words[x as int]@, q),
    );
}

/// The members of `matching`.
pub proof fn lemma_matching(words: Seq<Vec<u8>>, p: Seq<u8>)
    requires
        words.len() <= usize::MAX,
    ensures
        idx_ok(matching(words, p), words.len()),
        matching(words, p).no_duplicates(),
        forall|i: usize| #[trigger] matching(words, p).contains(i) == (i < words.len() && fits(words[i as int]@, p)),
        matching(words, p).len() <= words.len(),
{
    let all = all_indices(words.len());
    let f = |i: usize| fits(words[i as int]@, p);
    lemma_filter(all, f);
    assert forall|x: usize| #[trigger] all.contains(x) == (x < words.len()) by {
        if x < words.len() {
            assert(all[x as int] == x);
        }
    }
    assert(all.no_duplicates());
    let r = matching(words, p);
    assert forall|t: int| 0 <= t < r.len() implies #[trigger] r[t] < words.len() by {
        assert(all.contains(r[t]));
    }
}

/// Every word is possible where nothing is revealed.
pub proof fn lemma_blank(words: Seq<Vec<u8>>, k: nat)
    requires
        list_ok(words, k),
        words.len() <= usize::MAX,
    ensures
        matching(words, blank(k)) == all_indices(words.len()),
        is_pattern(blank(k)),
        forall|l: u8| l != 0 ==> !#[trigger] occurs(l, blank(k)),
        forall|i: int| 0 <= i < words.len() ==> fits((#[trigger] words[i])@, blank(k)) && blank(k) == shown(words[i]@, 0),
{
    let all = all_indices(words.len());
    let f = |i: usize| fits(words[i as int]@, blank(k));
    assert forall|l: u8| l != 0 implies !#[trigger] occurs(l, blank(k)) by {
        assert forall|j: int| !#[trigger] at(blank(k), j, l) by {}
    }
    lemma_has_zero();
    assert forall|i: int| 0 <= i < words.len() implies fits((#[trigger] words[i])@, blank(k)) && blank(k) == shown(words[i]@, 0) by {
        assert(blank(k) =~= shown(words[i]@, 0));
    }
    lemma_filter_all(all, f);
}

/// The set is closed under answers: it has the blank pattern, and with a pattern
/// every pattern that an answer to a further letter makes of it.
pub open spec fn closed_under_hits(words: Seq<Vec<u8>>, k: nat, s: Set<Seq<u8>>) -> bool {
    &&& s.contains(blank(k))
    &&& forall|p: Seq<u8>, i: int, l: u8|
        #![trigger s.contains(p), occurs(l, words[i]@)]
        s.contains(p) && 0 <= i < words.len() && fits(words[i]@, p) && is_lower(l) && occurs(l, words[i]@) && !occurs(
            l,
            p,
        ) ==> s.contains(reveal_at(p, l, place_mask(words[i]@, l)))
}

/// The letters of `m` below the letter `c`.
spec fn below(m: u32, c: u8) -> Set<u8> {
    letters(m).filter(|l: u8| l < c)
}

/// A set of patterns that is closed under answers holds every pattern.
pub proof fn lemma_closed_has_all(words: Seq<Vec<u8>>, k: nat, s: Set<Seq<u8>>)
    requires
        list_ok(words, k),
        k <= 32,
        words.len() > 0,
        words.len() <= usize::MAX,
        closed_under_hits(words, k, s),
    ensures
        forall|p: Seq<u8>| shows(words, p) ==> #[trigger] s.contains(p),
{
    assert forall|p: Seq<u8>| shows(words, p) implies #[trigger] s.contains(p) by {
        let (i, m) = choose|i: int, m: u32| 0 <= i < words.len() && p == #[trigger] shown(words[i]@, m);
        let q = lemma_closed_upto(words, k, s, i, m, 123);
        assert(shown(words[i]@, q) =~= p) by {
            assert forall|j: int| 0 <= j < k implies shown(words[i]@, q)[j] == p[j] by {
                assert(is_lower(words[i]@[j]));
            }
        }
    }
}

proof fn lemma_closed_upto(words: Seq<Vec<u8>>, k: nat, s: Set<Seq<u8>>, i: int, m: u32, c: u8) -> (q: u32)
    requires
        list_ok(words, k),
        k <= 32,
        0 <= i < words.len(),
        words.len() <= usize::MAX,
        closed_under_hits(words, k, s),
        97 <= c <= 123,
    ensures
        s.contains(shown(words[i]@, q)),
        forall|l: u8| #[trigger] holds(q, l) == (l < c && holds(m, l)),
    decreases c,
{
    let w = words[i]@;
    if c == 97 {
        lemma_has_zero();
        lemma_blank(words, k);
        assert(fits(words[i]@, blank(k)));
        0
    } else {
        let l = (c - 1) as u8;
        let q = lemma_closed_upto(words, k, s, i, m, l);
        if holds(m, l) {
            lemma_add_letter(q, l);
            let p = shown(w, q);
            lemma_shown_fits(w, q);
            if occurs(l, w) {
                assert(!occurs(l, p));
                lemma_reveal(w, p, l);
                assert(s.contains(reveal_at(p, l, place_mask(w, l))));
            } else {
                assert(shown(w, q | bit_of(l)) =~= p) by {
                    assert forall|j: int| 0 <= j < w.len() implies shown(w, q | bit_of(l))[j] == p[j] by {
                        assert(at(w, j, w[j]));
                    }
                }
            }
            q | bit_of(l)
        } else {
            q
        }
    }
}

/// The letters that a pattern shows.
pub fn pattern_letters(pattern: &[u8]) -> (r: LetterSet)
    requires
        is_pattern(pattern@),
    ensures
        only_letters(r),
        forall|l: u8| #[trigger] holds(r, l) == (l != 0 && occurs(l, pattern@)),
{
    let ghost p = pattern@;
    let mut r: u32 = 0;
    let mut i: usize = 0;
    proof {
        lemma_has_zero();
        crate::game::letters::lemma_bit_zero();
    }
    while i < pattern.len()
        invariant
            i <= p.len(),
            p == pattern@,
            is_pattern(p),
            only_letters(r),
            forall|l: u8| #[trigger] holds(r, l) == (l != 0 && exists|j: int| j < i && #[trigger] at(p, j, l)),
        decreases p.len() - i,
    {
        let b: u8 = pattern[i];
        let ghost before = r;
        if b != 0 {
            proof {
                lemma_add_letter(r, b);
                lemma_bit_ops(r, bit_of(b));
                crate::game::letters::lemma_bit_single((b - 97) as u32);
            }
            r |= letter_bit(b);
        }
        proof {
            assert forall|l: u8| #[trigger] holds(r, l) == (l != 0 && exists|j: int| j < i + 1 && #[trigger] at(p, j, l)) by {
                assert(holds(before, l) == (l != 0 && exists|j: int| j < i && #[trigger] at(p, j, l)));
                if l != 0 && l == b {
                    assert(at(p, i as int, l));
                }
            }
        }
        i += 1;
    }
    proof {
        assert forall|l: u8| #[trigger] holds(r, l) == (l != 0 && occurs(l, p)) by {
            if l != 0 && occurs(l, p) {
                let j = choose|j: int| #[trigger] at(p, j, l);
                assert(j < i && at(p, j, l));
            }
        }
    }
    r
}

/// The pattern with `letter` put at the places of `mask`.
pub(crate) fn reveal_pattern(pattern: &Vec<u8>, letter: u8, mask: u32) -> (r: Vec<u8>)
    requires
        pattern@.len() <= 32,
    ensures
        r@ == reveal_at(pattern@, letter, mask),
{
    let mut r: Vec<u8> = Vec::new();
    let mut j: usize = 0;
    while j < pattern.len()
        invariant
            j <= pattern@.len() <= 32,
            r@.len() == j,
            forall|t: int| 0 <= t < j ==> #[trigger] r@[t] == reveal_at(pattern@, letter, mask)[t],
        decreases pattern@.len() - j,
    {
        if (mask >> (j as u32)) & 1 == 1 {
            r.push(letter);
        } else {
            r.push(pattern[j]);
        }
        j += 1;
    }
    assert(r@ =~= reveal_at(pattern@, letter, mask));
    r
}

/// What a player sees of a word: the letters that were guessed, at their places, and
/// nothing else.
pub proof fn lemma_shown(w: Seq<u8>, m: u32, j: int)
    requires
        0 <= j < w.len(),
    ensures
        shown(w, m).len() == w.len(),
        holds(m, w[j]) ==> shown(w, m)[j] == w[j],
        !holds(m, w[j]) ==> shown(w, m)[j] == 0,
{
}

/// Revealing a letter puts it at the places of the mask and changes nothing else.
pub proof fn lemma_revealed(p: Seq<u8>, l: u8, mask: u32, j: int)
    requires
        0 <= j < p.len() <= 32,
    ensures
        reveal_at(p, l, mask).len() == p.len(),
        (mask >> (j as u32)) & 1 == 1 ==> reveal_at(p, l, mask)[j] == l,
        (mask >> (j as u32)) & 1 != 1 ==> reveal_at(p, l, mask)[j] == p[j],
{
}

/// A blank pattern hides every place.
pub proof fn lemma_blank_places(k: nat, j: int)
    requires
        0 <= j < k,
    ensures
        blank(k).len() == k,
        blank(k)[j] == 0,
{
}

} // verus!
