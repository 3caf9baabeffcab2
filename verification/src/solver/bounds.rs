//! Bounds on the value of a position that need no search.
use vstd::prelude::*;

use crate::game::letters::{
    bit, bit_of, bits_below, holds, is_lower, lemma_add_letter, lemma_has_zero, lemma_mask_bits, lemma_some_letter,
    lemma_test_letter, letter_bit, letters, place_mask, LetterSet,
};
use crate::game::rules::{
    at, is_open, lemma_forced_miss, lemma_miss_chain, lemma_more_budget, lemma_value, lemma_value_at_most_risky,
    lemma_without_is_reply, occurs, open_count, plain_words, required, risky, value, wins, without,
};
use crate::seqs::lemma_filter_take;
use crate::solver::data::SolverData;
use crate::solver::memoized::lemma_fold_unique;
use crate::solver::partition::{group, lemma_group, short_words};
use crate::solver::serving::{fold_of, lemma_fold_of};
use crate::solver::signature::{chosen, idx_ok, lemma_chosen_plain, position_value};

verus! {

/// A letter open in a position of plain words is one of `a` to `z`.
pub proof fn lemma_open_lower(s: Set<Seq<u8>>, g: Set<u8>, k: nat, l: u8)
    requires
        plain_words(s, k),
        is_open(s, g, l),
    ensures
        is_lower(l),
{
    let w = choose|w: Seq<u8>| #[trigger] s.contains(w) && occurs(l, w);
    let j = choose|j: int| #[trigger] at(w, j, l);
    assert(97 <= w[j] <= 122);
}

proof fn lemma_count_bits(s: Set<Seq<u8>>, g: Set<u8>, k: nat, p: u32, q: u32, n: nat)
    requires
        plain_words(s, k),
        forall|l: u8| holds(p, l) == #[trigger] is_open(s, g, l),
        forall|l: u8| #[trigger] holds(q, l) == (is_open(s, g, l) && required(s, l)),
        n <= 256,
    ensures
        open_count(s, g, n) == bits_below(p, if n <= 97 { 0 } else if n <= 123 { (n - 97) as nat } else { 26 }),
        risky(s, g, n) + bits_below(q, if n <= 97 { 0 } else if n <= 123 { (n - 97) as nat } else { 26 })
            == open_count(s, g, n),
    decreases n,
{
    if n > 0 {
        lemma_count_bits(s, g, k, p, q, (n - 1) as nat);
        let c = (n - 1) as u8;
        if is_open(s, g, c) {
            lemma_open_lower(s, g, k, c);
        }
        if is_lower(c) {
            assert(holds(p, c) == bit(p, c - 97));
            assert(holds(q, c) == bit(q, c - 97));
        }
    }
}

/// The value is at most the number of open letters less the number of required
/// ones.
pub proof fn lemma_value_bits(s: Set<Seq<u8>>, g: Set<u8>, k: nat, p: u32, q: u32)
    requires
        plain_words(s, k),
        forall|l: u8| holds(p, l) == #[trigger] is_open(s, g, l),
        forall|l: u8| #[trigger] holds(q, l) == (is_open(s, g, l) && required(s, l)),
    ensures
        value(s, g) + bits_below(q, 26) <= bits_below(p, 26),
{
    lemma_count_bits(s, g, k, p, q, 256);
    lemma_value_at_most_risky(s, g);
}

/// The value is at most the number of open letters.
pub proof fn lemma_value_open(s: Set<Seq<u8>>, g: Set<u8>, k: nat, p: u32)
    requires
        plain_words(s, k),
        forall|l: u8| holds(p, l) == #[trigger] is_open(s, g, l),
    ensures
        value(s, g) <= bits_below(p, 26),
{
    lemma_count_open(s, g, k, p, 256);
    lemma_value_at_most_risky(s, g);
}

proof fn lemma_count_open(s: Set<Seq<u8>>, g: Set<u8>, k: nat, p: u32, n: nat)
    requires
        plain_words(s, k),
        forall|l: u8| holds(p, l) == #[trigger] is_open(s, g, l),
        n <= 256,
    ensures
        open_count(s, g, n) == bits_below(p, if n <= 97 { 0 } else if n <= 123 { (n - 97) as nat } else { 26 }),
    decreases n,
{
    if n > 0 {
        lemma_count_open(s, g, k, p, (n - 1) as nat);
        let c = (n - 1) as u8;
        if is_open(s, g, c) {
            lemma_open_lower(s, g, k, c);
        }
        if is_lower(c) {
            assert(holds(p, c) == bit(p, c - 97));
        }
    }
}

/// The miss chain: each guess misses, and the guesser picks the letters so that the
/// chain of misses is as short as possible. It is counted up to `depth`.
pub open spec fn miss_chain(words: Seq<Vec<u8>>, idx: Seq<usize>, masked: u32, depth: nat) -> nat
    decreases depth, 27int,
{
    if idx.len() <= 1 {
        0
    } else {
        match least_chain(words, idx, masked, depth, 26) {
            Some(v) => v,
            None => 0,
        }
    }
}

/// The shortest chain that starts with one of the first `n` letters, among those that
/// are open.
pub open spec fn least_chain(words: Seq<Vec<u8>>, idx: Seq<usize>, masked: u32, depth: nat, n: nat) -> Option<nat>
    decreases depth, n,
{
    if n == 0 || depth == 0 {
        None
    } else {
        let l = (96 + n) as u8;
        let before = least_chain(words, idx, masked, depth, (n - 1) as nat);
        if !is_open(chosen(words, idx), letters(masked), l) {
            before
        } else {
            let v = 1 + chain_after_miss(words, group(words, idx, l, 0), masked | bit_of(l), (depth - 1) as nat);
            match before {
                Some(b) if b <= v => Some(b),
                _ => Some(v),
            }
        }
    }
}

/// Some letter that is left is in every word, so guessing it cannot miss.
pub open spec fn safe_letter(words: Seq<Vec<u8>>, idx: Seq<usize>, masked: u32) -> bool {
    exists|l: u8| is_lower(l) && !holds(masked, l) && #[trigger] required(chosen(words, idx), l)
}

/// The rest of the chain: letters that split nothing are given away, and where a
/// letter is still safe then, the chain ends.
pub open spec fn chain_after_miss(words: Seq<Vec<u8>>, idx: Seq<usize>, masked: u32, depth: nat) -> nat
    decreases depth, 28int,
{
    let folded = fold_of(words, idx, masked);
    if idx.len() <= 1 || safe_letter(words, idx, folded) {
        0
    } else {
        miss_chain(words, idx, folded, depth)
    }
}

/// Where no letter is open there is no chain.
proof fn lemma_no_chain(words: Seq<Vec<u8>>, idx: Seq<usize>, masked: u32, depth: nat, n: nat)
    requires
        forall|l: u8| !#[trigger] is_open(chosen(words, idx), letters(masked), l),
    ensures
        least_chain(words, idx, masked, depth, n) is None,
    decreases n,
{
    if n > 0 {
        lemma_no_chain(words, idx, masked, depth, (n - 1) as nat);
    }
}

/// A chain of one miss is the shortest there is.
proof fn lemma_chain_one(words: Seq<Vec<u8>>, idx: Seq<usize>, masked: u32, depth: nat, m: nat, n: nat)
    requires
        m <= n,
        least_chain(words, idx, masked, depth, m) == Some(1nat),
    ensures
        least_chain(words, idx, masked, depth, n) == Some(1nat),
    decreases n,
{
    if m < n {
        lemma_chain_one(words, idx, masked, depth, m, (n - 1) as nat);
    }
}

impl SolverData {
    /// The chosen words that do not hold `letter`, in order.
    fn miss_partition(
        &self,
        Ghost(words): Ghost<Seq<Vec<u8>>>,
        Ghost(k): Ghost<nat>,
        indices: &[usize],
        letter: u8,
    ) -> (miss: Vec<usize>)
        requires
            self.wf(words, k),
            idx_ok(indices@, words.len()),
            is_lower(letter),
        ensures
            miss@ == group(words, indices@, letter, 0),
    {
        let ghost idx = indices@;
        let ghost pred = |i: usize| place_mask(words[i as int]@, letter) == 0;
        let mut miss: Vec<usize> = Vec::new();
        let mut i: usize = 0;
        proof {
            assert(idx.take(0) =~= Seq::empty());
            reveal(Seq::filter);
            assert(miss@ =~= idx.take(0).filter(pred));
        }
        while i < indices.len()
            invariant
                i <= idx.len(),
                idx == indices@,
                pred == |i: usize| place_mask(words[i as int]@, letter) == 0,
                self.wf(words, k),
                idx_ok(idx, words.len()),
                is_lower(letter),
                miss@ == idx.take(i as int).filter(pred),
            decreases idx.len() - i,
        {
            proof {
                lemma_filter_take(idx, pred, i as int);
            }
            let mask: u32 = self.pos_mask_for(Ghost(words), Ghost(k), indices[i], letter);
            if mask == 0 {
                miss.push(indices[i]);
            }
            i += 1;
        }
        proof {
            assert(idx.take(i as int) =~= idx);
        }
        miss
    }

    /// A lower bound on the value by the miss chain: where no letter is
    /// required, every guess risks a miss, and the referee can always choose the
    /// words that the miss leaves. `max_depth` limits the length of the chain.
    pub(crate) fn miss_chain_lower_bound(
        &self,
        Ghost(words): Ghost<Seq<Vec<u8>>>,
        Ghost(k): Ghost<nat>,
        indices: &[usize],
        masked: LetterSet,
        max_depth: u32,
    ) -> (lb: u32)
        requires
            self.wf(words, k),
            idx_ok(indices@, words.len()),
            max_depth < u32::MAX,
            forall|l: u8| #[trigger] is_open(chosen(words, indices@), letters(masked), l) ==> !required(chosen(words, indices@), l),
        ensures
            lb == miss_chain(words, indices@, masked, max_depth as nat),
            lb <= max_depth,
            lb <= position_value(words, indices@, masked),
        decreases max_depth, 0int,
    {
        if indices.len() <= 1 || max_depth == 0 {
            return 0;
        }
        let ghost idx = indices@;
        let ghost s = chosen(words, idx);
        let ghost g = letters(masked);
        let present: u32 = self.present_letters(Ghost(words), Ghost(k), indices, masked);
        if present == 0 {
            proof {
                lemma_has_zero();
                assert forall|l: u8| !#[trigger] is_open(s, g, l) by {
                    assert(!holds(present, l));
                }
                lemma_no_chain(words, idx, masked, max_depth as nat, 26);
            }
            return 0;
        }
        proof {
            let c = lemma_some_letter(present);
            assert(is_open(s, g, c));
            lemma_forced_miss(s, g);
            lemma_value(s, g, 0);
        }
        let mut best: u32 = u32::MAX;
        let mut li: u8 = 0;
        while li < 26 && best > 1
            invariant
                li <= 26,
                0 < max_depth < u32::MAX,
                self.wf(words, k),
                idx == indices@,
                idx_ok(idx, words.len()),
                s == chosen(words, idx),
                g == letters(masked),
                forall|l: u8| holds(present, l) == #[trigger] is_open(s, g, l),
                forall|l: u8| #[trigger] is_open(s, g, l) ==> !required(s, l),
                exists|l: u8| #[trigger] is_open(s, g, l),
                value(s, g) >= 1,
                best == u32::MAX || 1 <= best <= max_depth,
                least_chain(words, idx, masked, max_depth as nat, li as nat) == if best == u32::MAX {
                    None
                } else {
                    Some(best as nat)
                },
                best == u32::MAX ==> forall|l: u8| #[trigger] is_open(s, g, l) ==> l >= 97 + li,
                best != u32::MAX && best > 1 ==> forall|l: u8| l < 97 + li && #[trigger] is_open(s, g, l) ==> !wins(without(s, l), g.insert(l), best - 2),
            decreases 26 - li,
        {
            let letter: u8 = 97 + li;
            proof {
                lemma_test_letter(present, letter);
                lemma_add_letter(masked, letter);
            }
            if present & letter_bit(letter) != 0 {
                let miss: Vec<usize> = self.miss_partition(Ghost(words), Ghost(k), indices, letter);
                proof {
                    assert(is_open(s, g, letter));
                    lemma_miss_words(words, idx, letter);
                }
                if miss.len() <= 1 {
                    proof {
                        assert(chain_after_miss(words, miss@, masked | bit_of(letter), (max_depth - 1) as nat) == 0);
                        assert(least_chain(words, idx, masked, max_depth as nat, (li + 1) as nat) == Some(1nat));
                        lemma_chain_one(words, idx, masked, max_depth as nat, (li + 1) as nat, 26);
                    }
                    return 1;
                }
                let rest: u32 = self.miss_chain_lb_inner(
                    Ghost(words),
                    Ghost(k),
                    miss.as_slice(),
                    masked | letter_bit(letter),
                    max_depth - 1,
                );
                let val: u32 = 1 + rest;
                let ghost before = best;
                if val < best {
                    best = val;
                }
                proof {
                    assert forall|l: u8| l < 97 + li + 1 && #[trigger] is_open(s, g, l) implies !wins(without(s, l), g.insert(l), best - 2) by {
                        if wins(without(s, l), g.insert(l), best - 2) {
                            if l == letter {
                                lemma_value(without(s, l), g.insert(l), best - 2);
                            } else {
                                lemma_more_budget(without(s, l), g.insert(l), best - 2, before - 2);
                            }
                        }
                    }
                }
            }
            li += 1;
        }
        proof {
            if best == 1 {
                lemma_chain_one(words, idx, masked, max_depth as nat, li as nat, 26);
            }
            if best > 1 {
                lemma_chosen_plain(words, idx, k);
                assert forall|l: u8| #[trigger] is_open(s, g, l) implies (exists|w: Seq<u8>| #[trigger] s.contains(w) && !occurs(l, w))
                    && !wins(without(s, l), g.insert(l), best - 2) by {
                    lemma_open_lower(s, g, k, l);
                }
                lemma_miss_chain(s, g, best - 1);
                lemma_value(s, g, best - 1);
            }
        }
        best
    }

    /// The same bound for words whose required letters have not been looked at:
    /// letters that split nothing are free, and where a required letter does
    /// split the words no miss can be claimed.
    fn miss_chain_lb_inner(
        &self,
        Ghost(words): Ghost<Seq<Vec<u8>>>,
        Ghost(k): Ghost<nat>,
        indices: &[usize],
        masked: LetterSet,
        max_depth: u32,
    ) -> (lb: u32)
        requires
            self.wf(words, k),
            idx_ok(indices@, words.len()),
            max_depth < u32::MAX,
        ensures
            lb == chain_after_miss(words, indices@, masked, max_depth as nat),
            lb <= max_depth,
            lb <= position_value(words, indices@, masked),
        decreases max_depth, 1int,
    {
        if indices.len() <= 1 || max_depth == 0 {
            return 0;
        }
        let (folded, splitting) = self.analyze_required_letters(Ghost(words), Ghost(k), indices, masked);
        proof {
            lemma_fold_of(words, indices@, masked);
            lemma_fold_unique(words, indices@, masked, folded, fold_of(words, indices@, masked));
        }
        if splitting != 0 {
            proof {
                let c = lemma_some_letter(splitting);
                assert(required(chosen(words, indices@), c));
            }
            return 0;
        }
        proof {
            let s = chosen(words, indices@);
            lemma_has_zero();
            assert(!safe_letter(words, indices@, folded)) by {
                assert forall|l: u8| is_lower(l) && !holds(folded, l) implies !#[trigger] required(s, l) by {
                    assert(!holds(splitting, l));
                }
            }
            lemma_chosen_plain(words, indices@, k);
            assert forall|l: u8| #[trigger] is_open(s, letters(folded), l) implies !required(s, l) by {
                lemma_open_lower(s, letters(folded), k, l);
                assert(!holds(splitting, l));
            }
        }
        self.miss_chain_lower_bound(Ghost(words), Ghost(k), indices, folded, max_depth)
    }
}

/// The words of the miss group are those without the letter.
proof fn lemma_miss_words(words: Seq<Vec<u8>>, idx: Seq<usize>, l: u8)
    requires
        short_words(words),
        idx_ok(idx, words.len()),
        !required(chosen(words, idx), l),
    ensures
        idx_ok(group(words, idx, l, 0), words.len()),
        chosen(words, group(words, idx, l, 0)) == without(chosen(words, idx), l),
{
    let s = chosen(words, idx);
    let w = choose|w: Seq<u8>| #[trigger] s.contains(w) && !occurs(l, w);
    let t = choose|t: int| 0 <= t < idx.len() && words[#[trigger] idx[t] as int]@ == w;
    lemma_group(words, idx, l, 0);
    lemma_mask_bits(w, l);
    assert(idx.contains(idx[t]));
    lemma_without_is_reply(s, l, w);
}

} // verus!
