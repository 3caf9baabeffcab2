//! Letters that every possible word holds: free guesses where they split
//! nothing, best guesses where they do.
use vstd::prelude::*;

use crate::game::letters::{
    bit, bit_of, bits_below, holds, is_lower, lemma_add_letter, lemma_bit_ops, lemma_bit_single, lemma_has_ops,
    lemma_mask_same, lemma_test_letter, letter_bit, letters, letters_of, lower_word, only_letters, place_mask,
    pos_mask, LetterSet,
};
use crate::game::rules::{lemma_value_uniform_letter, occurs, required, same_places, uniform, value};
use crate::solver::partition::short_words;
use crate::solver::signature::{chosen, idx_ok, position_value};

verus! {

/// Letter `l` stands in every chosen word, always at the same places, and has
/// not been guessed.
pub open spec fn foldable(words: Seq<Vec<u8>>, idx: Seq<usize>, masked: u32, l: u8) -> bool {
    &&& is_lower(l)
    &&& !holds(masked, l)
    &&& required(chosen(words, idx), l)
    &&& uniform(chosen(words, idx), l)
}

/// `r` is `masked` together with every foldable letter.
pub open spec fn is_fold(words: Seq<Vec<u8>>, idx: Seq<usize>, masked: u32, r: u32) -> bool {
    &&& forall|l: u8| #[trigger] holds(r, l) == (holds(masked, l) || foldable(words, idx, masked, l))
    &&& forall|i: int| 26 <= i ==> #[trigger] bit(r, i) == bit(masked, i)
}

/// Letter `l` stands in the word of every index below place `n`.
pub open spec fn in_all(words: Seq<Vec<u8>>, idx: Seq<usize>, n: int, l: u8) -> bool {
    forall|t: int| 0 <= t < n ==> occurs(l, words[#[trigger] idx[t] as int]@)
}

/// Every index has the place mask of the first one for letter `l`.
pub open spec fn same_in_all(words: Seq<Vec<u8>>, idx: Seq<usize>, l: u8) -> bool {
    forall|t: int|
        0 <= t < idx.len() ==> place_mask(words[#[trigger] idx[t] as int]@, l) == place_mask(
            words[idx[0] as int]@,
            l,
        )
}

pub proof fn lemma_in_all(words: Seq<Vec<u8>>, idx: Seq<usize>, l: u8)
    ensures
        in_all(words, idx, idx.len() as int, l) == required(chosen(words, idx), l),
{
    let s = chosen(words, idx);
    if required(s, l) {
        assert forall|t: int| 0 <= t < idx.len() implies occurs(l, words[#[trigger] idx[t] as int]@) by {
            assert(s.contains(words[idx[t] as int]@));
        }
    }
    if in_all(words, idx, idx.len() as int, l) {
        assert forall|w: Seq<u8>| #[trigger] s.contains(w) implies occurs(l, w) by {
            let t = choose|t: int| 0 <= t < idx.len() && words[#[trigger] idx[t] as int]@ == w;
            assert(occurs(l, words[idx[t] as int]@));
        }
    }
}

pub proof fn lemma_same_in_all(words: Seq<Vec<u8>>, idx: Seq<usize>, l: u8)
    requires
        short_words(words),
        idx_ok(idx, words.len()),
        idx.len() > 0,
    ensures
        same_in_all(words, idx, l) == uniform(chosen(words, idx), l),
{
    let s = chosen(words, idx);
    let first = words[idx[0] as int]@;
    if uniform(s, l) {
        assert(s.contains(first));
        assert forall|t: int| 0 <= t < idx.len() implies place_mask(words[#[trigger] idx[t] as int]@, l)
            == place_mask(first, l) by {
            let w = words[idx[t] as int]@;
            assert(s.contains(w));
            lemma_mask_same(w, first, l);
        }
    }
    if same_in_all(words, idx, l) {
        assert forall|v: Seq<u8>, w: Seq<u8>| #[trigger] s.contains(v) && #[trigger] s.contains(w) implies same_places(l, v, w) by {
            let t = choose|t: int| 0 <= t < idx.len() && words[#[trigger] idx[t] as int]@ == v;
            let u = choose|u: int| 0 <= u < idx.len() && words[#[trigger] idx[u] as int]@ == w;
            assert(place_mask(v, l) == place_mask(w, l));
            lemma_mask_same(v, w, l);
        }
    }
}

/// Adding a letter that was missing adds one to the count of letters.
pub proof fn lemma_add_counts(m: u32, c: u8, n: nat)
    requires
        is_lower(c),
        !holds(m, c),
        n <= 26,
    ensures
        bits_below(m | bit_of(c), n) == bits_below(m, n) + if c - 97 < n {
            1nat
        } else {
            0nat
        },
    decreases n,
{
    if n > 0 {
        lemma_add_counts(m, c, (n - 1) as nat);
        lemma_bit_ops(m, bit_of(c));
        lemma_bit_single((c - 97) as u32);
    }
}

/// A larger letter set has at least as many letters.
pub proof fn lemma_more_letters(m: u32, r: u32, n: nat)
    requires
        n <= 26,
        forall|c: u8| #[trigger] holds(m, c) ==> holds(r, c),
    ensures
        bits_below(m, n) <= bits_below(r, n),
    decreases n,
{
    if n > 0 {
        lemma_more_letters(m, r, (n - 1) as nat);
        let c = (97 + n - 1) as u8;
        assert(holds(m, c) ==> holds(r, c));
    }
}

/// Folding does not change the value of the position: the folded letters are
/// free guesses that split nothing.
pub proof fn lemma_fold_keeps_value(words: Seq<Vec<u8>>, idx: Seq<usize>, masked: u32, r: u32)
    requires
        is_fold(words, idx, masked, r),
    ensures
        position_value(words, idx, r) == position_value(words, idx, masked),
{
    lemma_add_uniform(chosen(words, idx), letters(masked), letters(r), 256);
}

/// The letters of `h` below `n`, and those of `g`.
spec fn letters_upto(g: Set<u8>, h: Set<u8>, n: nat) -> Set<u8> {
    Set::new(|c: u8| g.contains(c) || (c < n && h.contains(c)))
}

proof fn lemma_add_uniform(s: Set<Seq<u8>>, g: Set<u8>, h: Set<u8>, n: nat)
    requires
        n <= 256,
        forall|c: u8| #[trigger] g.contains(c) ==> h.contains(c),
        forall|c: u8| #[trigger] h.contains(c) && !g.contains(c) ==> uniform(s, c),
    ensures
        value(s, letters_upto(g, h, n)) == value(s, g),
        n == 256 ==> value(s, h) == value(s, g),
    decreases n,
{
    if n == 0 {
        assert(letters_upto(g, h, 0) =~= g);
    } else {
        lemma_add_uniform(s, g, h, (n - 1) as nat);
        let c = (n - 1) as u8;
        let before = letters_upto(g, h, (n - 1) as nat);
        let after = letters_upto(g, h, n);
        if h.contains(c) && !g.contains(c) {
            assert(after =~= before.insert(c));
            lemma_value_uniform_letter(s, before, c);
        } else {
            assert(after =~= before);
        }
        if n == 256 {
            assert(after =~= h);
        }
    }
}

/// Fold the letters that every word holds at the same places into `masked`:
/// guessing them is free and tells nothing. This comes before
/// `canonical_hash_for_words`.
pub fn fold_required_letters(words: &[Vec<u8>], indices: &[usize], masked: LetterSet) -> (r: LetterSet)
    requires
        idx_ok(indices@, words@.len()),
        short_words(words@),
        forall|i: int| 0 <= i < words@.len() ==> lower_word((#[trigger] words@[i])@),
    ensures
        indices@.len() == 0 ==> r == masked,
        indices@.len() > 0 ==> is_fold(words@, indices@, masked, r),
        indices@.len() > 0 ==> position_value(words@, indices@, r) == position_value(words@, indices@, masked),
{
    if indices.len() == 0 {
        return masked;
    }
    let ghost idx = indices@;
    let mut common: u32 = letters_of(words[indices[0]].as_slice());
    let mut i: usize = 1;
    while i < indices.len()
        invariant
            1 <= i <= indices@.len(),
            idx == indices@,
            idx_ok(idx, words@.len()),
            forall|j: int| 0 <= j < words@.len() ==> lower_word((#[trigger] words@[j])@),
            only_letters(common),
            forall|l: u8| #[trigger] holds(common, l) == (is_lower(l) && in_all(words@, idx, i as int, l)),
        decreases indices@.len() - i,
    {
        let next: u32 = letters_of(words[indices[i]].as_slice());
        proof {
            lemma_has_ops(common, next);
            lemma_bit_ops(common, next);
            assert forall|l: u8| #[trigger] holds(common & next, l) == (is_lower(l) && in_all(words@, idx, i + 1, l)) by {
                assert(holds(common, l) == (is_lower(l) && in_all(words@, idx, i as int, l)));
                assert(holds(next, l) == occurs(l, words@[idx[i as int] as int]@));
                if is_lower(l) && in_all(words@, idx, i + 1, l) {
                    assert(occurs(l, words@[idx[i as int] as int]@));
                }
            }
        }
        common &= next;
        i += 1;
    }
    let mut r: LetterSet = masked;
    let mut li: u8 = 0;
    while li < 26
        invariant
            li <= 26,
            idx == indices@,
            idx.len() > 0,
            idx_ok(idx, words@.len()),
            short_words(words@),
            forall|l: u8| #[trigger] holds(common, l) == (is_lower(l) && in_all(words@, idx, idx.len() as int, l)),
            forall|l: u8| #[trigger] holds(r, l) == (holds(masked, l) || (l < 97 + li && foldable(words@, idx, masked, l))),
            forall|j: int| 26 <= j ==> #[trigger] bit(r, j) == bit(masked, j),
        decreases 26 - li,
    {
        let letter: u8 = 97 + li;
        let ghost before = r;
        proof {
            lemma_test_letter(common, letter);
            lemma_test_letter(masked, letter);
            lemma_in_all(words@, idx, letter);
            lemma_same_in_all(words@, idx, letter);
        }
        if common & letter_bit(letter) != 0 && masked & letter_bit(letter) == 0 {
            let first_mask: u32 = pos_mask(words[indices[0]].as_slice(), letter);
            let mut all_same: bool = true;
            let mut t: usize = 1;
            while t < indices.len() && all_same
                invariant
                    1 <= t <= indices@.len(),
                    idx == indices@,
                    idx_ok(idx, words@.len()),
                    short_words(words@),
                    first_mask == place_mask(words@[idx[0] as int]@, letter),
                    all_same == forall|u: int| 0 <= u < t ==> place_mask(words@[#[trigger] idx[u] as int]@, letter) == first_mask,
                decreases indices@.len() - t,
            {
                let mask: u32 = pos_mask(words[indices[t]].as_slice(), letter);
                if mask != first_mask {
                    all_same = false;
                    assert(place_mask(words@[idx[t as int] as int]@, letter) != first_mask);
                }
                t += 1;
            }
            if all_same {
                proof {
                    lemma_add_letter(r, letter);
                    lemma_bit_ops(r, bit_of(letter));
                    lemma_bit_single(li as u32);
                    assert(same_in_all(words@, idx, letter));
                }
                r |= letter_bit(letter);
            } else {
                assert(!same_in_all(words@, idx, letter));
            }
        }
        li += 1;
    }
    proof {
        assert forall|l: u8| #[trigger] holds(r, l) == (holds(masked, l) || foldable(words@, idx, masked, l)) by {}
        lemma_fold_keeps_value(words@, idx, masked, r);
    }
    r
}

} // verus!
