//! Tables over a word list that the searches read: where each letter stands in
//! each word, and how common each letter is.
use vstd::prelude::*;

use crate::game::letters::{
    bit, bit_of, holds, is_lower, lemma_add_letter, lemma_bit_ops, lemma_bit_single, lemma_has_ops, lemma_has_zero,
    lemma_test_letter, letter_bit, letters, letters_of, lower_word, only_letters, place_mask, pos_mask, word_mask,
    LetterSet,
};
use crate::game::rules::{at, is_open, occurs, required, uniform};
use crate::solver::partition::{group_by_mask, is_partition, short_words};
use crate::solver::required::{
    foldable, in_all, is_fold, lemma_fold_keeps_value, lemma_in_all, lemma_same_in_all, same_in_all,
};
use crate::solver::signature::{chosen, idx_ok, list_ok, position_value};
use crate::sorting::{in_order, perm_of, sorted_order};

verus! {

/// Tables over a word list.
pub struct SolverData {
    /// `pos_masks[l][i]`: the places of the letter with index `l` in word `i`.
    pub(crate) pos_masks: Vec<Vec<u32>>,
    /// `word_letters[i]`: the letters of word `i`.
    pub(crate) word_letters: Vec<u32>,
    /// `freq_rank[l]`: 0 for the letter that the most words hold.
    pub(crate) freq_rank: Vec<u8>,
}

/// How many of the first `n` letter sets hold the letter with index `l`.
pub open spec fn letter_count(sets: Seq<u32>, l: int, n: nat) -> nat
    decreases n,
{
    if n == 0 {
        0
    } else {
        letter_count(sets, l, (n - 1) as nat) + if bit(sets[n - 1], l) {
            1nat
        } else {
            0nat
        }
    }
}

/// Letters by falling count: more words first.
pub open spec fn count_order(sets: Seq<u32>) -> spec_fn(int, int) -> bool {
    |x: int, y: int| letter_count(sets, x, sets.len()) >= letter_count(sets, y, sets.len())
}

impl SolverData {
    /// The tables belong to the list `words`, whose words have length `k`.
    pub open(crate) spec fn wf(&self, words: Seq<Vec<u8>>, k: nat) -> bool {
        &&& list_ok(words, k)
        &&& k <= 32
        &&& self.pos_masks@.len() == 26
        &&& forall|l: int| 0 <= l < 26 ==> (#[trigger] self.pos_masks@[l])@.len() == words.len()
        &&& forall|l: int, i: int|
            0 <= l < 26 && 0 <= i < words.len() ==> #[trigger] self.pos_masks@[l]@[i] == place_mask(
                words[i]@,
                (97 + l) as u8,
            )
        &&& self.word_letters@.len() == words.len()
        &&& forall|i: int|
            0 <= i < words.len() ==> #[trigger] self.word_letters@[i] == word_mask(words[i]@)
        &&& self.freq_rank@.len() == 26
        &&& forall|l: int| 0 <= l < 26 ==> #[trigger] self.freq_rank@[l] < 26
    }

    /// Builds the tables. Letters are ranked by how many words hold them, more
    /// words first, ties in alphabetical order.
    pub(crate) fn new(words: &[Vec<u8>], k: usize) -> (r: Self)
        requires
            list_ok(words@, k as nat),
            k <= 32,
        ensures
            r.wf(words@, k as nat),
            exists|o: Seq<usize>| #[trigger]
                perm_of(o, 0, 26) && in_order(count_order(r.word_letters@), o) && forall|t: int|
                    0 <= t < 26 ==> r.freq_rank@[#[trigger] o[t] as int] == t,
    {
        let n: usize = words.len();
        let mut pos_masks: Vec<Vec<u32>> = Vec::new();
        let mut li: u8 = 0;
        while li < 26
            invariant
                li <= 26,
                n == words@.len(),
                list_ok(words@, k as nat),
                k <= 32,
                pos_masks@.len() == li,
                forall|l: int| 0 <= l < li ==> (#[trigger] pos_masks@[l])@.len() == n,
                forall|l: int, i: int|
                    0 <= l < li && 0 <= i < n ==> #[trigger] pos_masks@[l]@[i] == place_mask(
                        words@[i]@,
                        (97 + l) as u8,
                    ),
            decreases 26 - li,
        {
            let mut row: Vec<u32> = Vec::new();
            let mut i: usize = 0;
            while i < n
                invariant
                    li < 26,
                    i <= n,
                    n == words@.len(),
                    list_ok(words@, k as nat),
                    k <= 32,
                    row@.len() == i,
                    forall|t: int|
                        0 <= t < i ==> #[trigger] row@[t] == place_mask(words@[t]@, (97 + li) as u8),
                decreases n - i,
            {
                row.push(pos_mask(words[i].as_slice(), 97 + li));
                i += 1;
            }
            pos_masks.push(row);
            li += 1;
        }
        let mut word_letters: Vec<u32> = Vec::new();
        let mut i: usize = 0;
        while i < n
            invariant
                i <= n,
                n == words@.len(),
                list_ok(words@, k as nat),
                word_letters@.len() == i,
                forall|t: int| 0 <= t < i ==> #[trigger] word_letters@[t] == word_mask(words@[t]@),
            decreases n - i,
        {
            word_letters.push(letters_of(words[i].as_slice()));
            i += 1;
        }
        let mut counts: Vec<usize> = Vec::new();
        let mut c: u32 = 0;
        while c < 26
            invariant
                c <= 26,
                counts@.len() == c,
                forall|l: int|
                    0 <= l < c ==> #[trigger] counts@[l] == letter_count(
                        word_letters@,
                        l,
                        word_letters@.len(),
                    ),
            decreases 26 - c,
        {
            let mut count: usize = 0;
            let mut j: usize = 0;
            while j < word_letters.len()
                invariant
                    c < 26,
                    j <= word_letters@.len(),
                    count == letter_count(word_letters@, c as int, j as nat),
                    count <= j,
                decreases word_letters@.len() - j,
            {
                if (word_letters[j] >> c) & 1 == 1 {
                    count += 1;
                }
                j += 1;
            }
            counts.push(count);
            c += 1;
        }
        let ghost leq = count_order(word_letters@);
        let le = |x: usize, y: usize| -> (r: bool)
            requires
                x < 26,
                y < 26,
                counts@.len() == 26,
                forall|l: int|
                    0 <= l < 26 ==> #[trigger] counts@[l] == letter_count(
                        word_letters@,
                        l,
                        word_letters@.len(),
                    ),
            ensures
                r == count_order(word_letters@)(x as int, y as int),
            { counts[x] >= counts[y] };
        let order = sorted_order(26, &le, Ghost(leq));
        let mut freq_rank: Vec<u8> = Vec::new();
        let mut z: usize = 0;
        while z < 26
            invariant
                z <= 26,
                freq_rank@.len() == z,
                forall|l: int| 0 <= l < z ==> #[trigger] freq_rank@[l] < 26,
            decreases 26 - z,
        {
            freq_rank.push(0);
            z += 1;
        }
        let mut rank: usize = 0;
        while rank < 26
            invariant
                rank <= 26,
                perm_of(order@, 0, 26),
                freq_rank@.len() == 26,
                forall|l: int| 0 <= l < 26 ==> #[trigger] freq_rank@[l] < 26,
                forall|t: int| 0 <= t < rank ==> freq_rank@[#[trigger] order@[t] as int] == t,
            decreases 26 - rank,
        {
            let at: usize = order[rank];
            freq_rank.set(at, rank as u8);
            proof {
                assert forall|t: int| 0 <= t < rank + 1 implies freq_rank@[#[trigger] order@[t] as int] == t by {
                    if t < rank {
                        assert(order@[t] != order@[rank as int]);
                    }
                }
            }
            rank += 1;
        }
        SolverData { pos_masks, word_letters, freq_rank }
    }

    /// The place mask of `letter` in word `idx`.
    pub(crate) fn pos_mask_for(&self, Ghost(words): Ghost<Seq<Vec<u8>>>, Ghost(k): Ghost<nat>, idx: usize, letter: u8) -> (r: u32)
        requires
            self.wf(words, k),
            idx < words.len(),
            is_lower(letter),
        ensures
            r == place_mask(words[idx as int]@, letter),
    {
        let l: usize = (letter - 97) as usize;
        proof {
            assert(self.pos_masks@[l as int]@.len() == words.len());
        }
        self.pos_masks[l][idx]
    }

    /// The letters, not masked, that stand in some chosen word.
    pub(crate) fn present_letters(
        &self,
        Ghost(words): Ghost<Seq<Vec<u8>>>,
        Ghost(k): Ghost<nat>,
        indices: &[usize],
        masked: LetterSet,
    ) -> (r: LetterSet)
        requires
            self.wf(words, k),
            idx_ok(indices@, words.len()),
        ensures
            only_letters(r),
            forall|l: u8|
                #![trigger holds(r, l)]
                #![trigger is_open(chosen(words, indices@), letters(masked), l)]
                holds(r, l) == is_open(chosen(words, indices@), letters(masked), l),
    {
        let ghost idx = indices@;
        let mut present: u32 = 0;
        let mut i: usize = 0;
        proof {
            lemma_has_zero();
            crate::game::letters::lemma_bit_zero();
        }
        while i < indices.len()
            invariant
                i <= idx.len(),
                idx == indices@,
                self.wf(words, k),
                idx_ok(idx, words.len()),
                only_letters(present),
                forall|l: u8| #[trigger] holds(present, l) == exists|t: int| 0 <= t < i && occurs(l, words[#[trigger] idx[t] as int]@),
            decreases idx.len() - i,
        {
            let ghost before = present;
            let next: u32 = self.word_letters[indices[i]];
            proof {
                crate::game::letters::lemma_word_mask(words[idx[i as int] as int]@);
                lemma_has_ops(before, next);
                lemma_bit_ops(before, next);
            }
            present |= next;
            proof {
                assert forall|l: u8| #[trigger] holds(present, l) == exists|t: int| 0 <= t < i + 1 && occurs(l, words[#[trigger] idx[t] as int]@) by {
                    assert(holds(before, l) == exists|t: int| 0 <= t < i && occurs(l, words[#[trigger] idx[t] as int]@));
                    assert(holds(next, l) == occurs(l, words[idx[i as int] as int]@));
                }
            }
            i += 1;
        }
        proof {
            lemma_has_ops(present, !masked);
            lemma_has_ops(masked, 0);
            lemma_bit_ops(present, !masked);
            let s = chosen(words, idx);
            let r = present & !masked;
            assert forall|l: u8|
                #![trigger holds(r, l)]
                #![trigger is_open(s, letters(masked), l)]
                holds(r, l) == is_open(s, letters(masked), l) by {
                if holds(r, l) {
                    let t = choose|t: int| 0 <= t < idx.len() && occurs(l, words[#[trigger] idx[t] as int]@);
                    assert(s.contains(words[idx[t] as int]@));
                }
                if is_open(s, letters(masked), l) {
                    let w = choose|w: Seq<u8>| #[trigger] s.contains(w) && occurs(l, w);
                    let t = choose|t: int| 0 <= t < idx.len() && words[#[trigger] idx[t] as int]@ == w;
                    let j = choose|j: int| #[trigger] at(w, j, l);
                    assert(lower_word(words[idx[t] as int]@));
                    assert(is_lower(w[j]));
                    assert(holds(present, l));
                }
            }
        }
        present & !masked
    }

    /// The letters that every chosen word holds: those that split nothing are
    /// added to `masked`, the others are returned beside it.
    pub(crate) fn analyze_required_letters(
        &self,
        Ghost(words): Ghost<Seq<Vec<u8>>>,
        Ghost(k): Ghost<nat>,
        indices: &[usize],
        masked: LetterSet,
    ) -> (r: (LetterSet, LetterSet))
        requires
            self.wf(words, k),
            idx_ok(indices@, words.len()),
            indices@.len() > 0,
        ensures
            is_fold(words, indices@, masked, r.0),
            position_value(words, indices@, r.0) == position_value(words, indices@, masked),
            only_letters(r.1),
            forall|l: u8|
                #![trigger holds(r.1, l)]
                holds(r.1, l) == (is_lower(l) && !holds(r.0, l) && required(chosen(words, indices@), l)),
            forall|l: u8| #[trigger] holds(r.1, l) ==> !uniform(chosen(words, indices@), l),
    {
        let ghost idx = indices@;
        proof {
            assert(short_words(words));
        }
        let mut common: u32 = self.word_letters[indices[0]];
        proof {
            crate::game::letters::lemma_word_mask(words[idx[0] as int]@);
        }
        let mut i: usize = 1;
        while i < indices.len() && common & !masked != 0
            invariant
                1 <= i <= idx.len(),
                idx == indices@,
                self.wf(words, k),
                idx_ok(idx, words.len()),
                only_letters(common),
                forall|l: u8| #[trigger] holds(common, l) == (is_lower(l) && in_all(words, idx, i as int, l)),
            decreases idx.len() - i,
        {
            let next: u32 = self.word_letters[indices[i]];
            proof {
                crate::game::letters::lemma_word_mask(words[idx[i as int] as int]@);
                lemma_has_ops(common, next);
                lemma_bit_ops(common, next);
                assert forall|l: u8| #[trigger] holds(common & next, l) == (is_lower(l) && in_all(words, idx, i + 1, l)) by {
                    assert(holds(common, l) == (is_lower(l) && in_all(words, idx, i as int, l)));
                    assert(holds(next, l) == occurs(l, words[idx[i as int] as int]@));
                    if is_lower(l) && in_all(words, idx, i + 1, l) {
                        assert(occurs(l, words[idx[i as int] as int]@));
                    }
                }
            }
            common &= next;
            i += 1;
        }
        proof {
            // Where the scan stopped early no unmasked letter is in all words.
            lemma_has_ops(common, !masked);
            lemma_has_ops(masked, 0);
            lemma_has_zero();
            assert forall|l: u8| !holds(masked, l) implies #[trigger] holds(common, l) == (is_lower(l) && in_all(words, idx, idx.len() as int, l)) by {
                assert(holds(common, l) == (is_lower(l) && in_all(words, idx, i as int, l)));
                if i < idx.len() {
                    assert(common & !masked == 0);
                    assert(!holds(common & !masked, l));
                }
            }
        }
        let mut folded: LetterSet = masked;
        let mut splitting: LetterSet = 0;
        let mut li: u8 = 0;
        proof {
            crate::game::letters::lemma_bit_zero();
        }
        while li < 26
            invariant
                li <= 26,
                idx == indices@,
                idx.len() > 0,
                self.wf(words, k),
                short_words(words),
                idx_ok(idx, words.len()),
                forall|l: u8| !holds(masked, l) ==> #[trigger] holds(common, l) == (is_lower(l) && in_all(words, idx, idx.len() as int, l)),
                forall|l: u8| #[trigger] holds(folded, l) == (holds(masked, l) || (l < 97 + li && foldable(words, idx, masked, l))),
                forall|j: int| 26 <= j ==> #[trigger] bit(folded, j) == bit(masked, j),
                only_letters(splitting),
                forall|l: u8| #[trigger] holds(splitting, l) == (is_lower(l) && l < 97 + li && !holds(masked, l) && required(chosen(words, idx), l) && !uniform(chosen(words, idx), l)),
            decreases 26 - li,
        {
            let letter: u8 = 97 + li;
            proof {
                lemma_test_letter(common, letter);
                lemma_test_letter(masked, letter);
                lemma_in_all(words, idx, letter);
                lemma_same_in_all(words, idx, letter);
            }
            if masked & letter_bit(letter) == 0 && common & letter_bit(letter) != 0 {
                let first_mask: u32 = self.pos_mask_for(Ghost(words), Ghost(k), indices[0], letter);
                let mut all_same: bool = true;
                let mut t: usize = 1;
                while t < indices.len() && all_same
                    invariant
                        1 <= t <= idx.len(),
                        idx == indices@,
                        self.wf(words, k),
                        is_lower(letter),
                        idx_ok(idx, words.len()),
                        first_mask == place_mask(words[idx[0] as int]@, letter),
                        all_same == forall|u: int| 0 <= u < t ==> place_mask(words[#[trigger] idx[u] as int]@, letter) == first_mask,
                    decreases idx.len() - t,
                {
                    let mask: u32 = self.pos_mask_for(Ghost(words), Ghost(k), indices[t], letter);
                    if mask != first_mask {
                        all_same = false;
                        assert(place_mask(words[idx[t as int] as int]@, letter) != first_mask);
                    }
                    t += 1;
                }
                proof {
                    lemma_add_letter(folded, letter);
                    lemma_bit_ops(folded, bit_of(letter));
                    lemma_add_letter(splitting, letter);
                    lemma_bit_ops(splitting, bit_of(letter));
                    lemma_bit_single(li as u32);
                    assert(all_same == same_in_all(words, idx, letter));
                }
                if all_same {
                    folded |= letter_bit(letter);
                } else {
                    splitting |= letter_bit(letter);
                }
            }
            li += 1;
        }
        proof {
            assert(is_fold(words, idx, masked, folded));
            lemma_fold_keeps_value(words, idx, masked, folded);
        }
        (folded, splitting)
    }

    /// Partition the chosen words by the places where `letter` stands.
    pub(crate) fn partition(
        &self,
        Ghost(words): Ghost<Seq<Vec<u8>>>,
        Ghost(k): Ghost<nat>,
        indices: &[usize],
        letter: u8,
    ) -> (parts: Vec<(u32, Vec<usize>)>)
        requires
            self.wf(words, k),
            idx_ok(indices@, words.len()),
            is_lower(letter),
        ensures
            is_partition(words, indices@, letter, parts@),
    {
        let mut masks: Vec<u32> = Vec::new();
        let mut i: usize = 0;
        while i < indices.len()
            invariant
                i <= indices@.len(),
                self.wf(words, k),
                idx_ok(indices@, words.len()),
                is_lower(letter),
                masks@.len() == i,
                forall|t: int|
                    0 <= t < i ==> #[trigger] masks@[t] == place_mask(words[indices@[t] as int]@, letter),
            decreases indices@.len() - i,
        {
            masks.push(self.pos_mask_for(Ghost(words), Ghost(k), indices[i], letter));
            i += 1;
        }
        group_by_mask(Ghost(words), indices, Ghost(letter), &masks)
    }
}

} // verus!
