//! Positions with two, three or four words, solved outright.
use vstd::prelude::*;

use crate::game::letters::{
    bit_of, bits_below, holds, is_lower, lemma_add_letter, lemma_bits_below, lemma_mask_bits, lemma_mask_same,
    lemma_test_letter, letter_bit, letters, lower_word, place_mask, LetterSet,
};
use crate::game::rules::{
    at, cost, guess_wins, is_guess_value, is_open, lemma_at_most_25, lemma_guess_more_budget, lemma_guess_to_wins,
    lemma_indistinct, lemma_unguessed_less, lemma_value_is, lemma_worst_answer, no_open, occurs, reply, same_places,
    unguessed, uniform, value, wins,
};
use crate::seqs::{lemma_filter, lemma_filter_take};
use crate::solver::data::SolverData;
use crate::solver::partition::{group, lemma_group, short_words};
use crate::solver::required::lemma_add_counts;
use crate::solver::signature::{
    chosen, idx_ok, lemma_chosen_plain, list_ok, position_value, sig,
};

verus! {

/// The words of the index list have pairwise different signatures.
pub open spec fn distinct_sigs(words: Seq<Vec<u8>>, idx: Seq<usize>, masked: u32) -> bool {
    forall|t: int, u: int|
        0 <= t < u < idx.len() ==> sig(words[#[trigger] idx[t] as int]@, masked) != sig(
            words[#[trigger] idx[u] as int]@,
            masked,
        )
}

/// What the answer of the word at place `t` to letter `l` leads to: its miss, if
/// it is one, and the value of what remains.
pub open spec fn answer_value(words: Seq<Vec<u8>>, idx: Seq<usize>, masked: u32, l: u8, t: int) -> int {
    let m = place_mask(words[idx[t] as int]@, l);
    (if m == 0 {
        1int
    } else {
        0int
    }) + position_value(words, group(words, idx, l, m), masked | bit_of(l))
}

/// The largest answer value is the value of the guess.
pub proof fn lemma_guess_value(words: Seq<Vec<u8>>, idx: Seq<usize>, masked: u32, l: u8, worst: int, t: int)
    requires
        short_words(words),
        idx_ok(idx, words.len()),
        is_lower(l),
        0 <= t < idx.len(),
        worst == answer_value(words, idx, masked, l, t),
        forall|u: int| 0 <= u < idx.len() ==> #[trigger] answer_value(words, idx, masked, l, u) <= worst,
    ensures
        is_guess_value(chosen(words, idx), letters(masked), l, worst),
{
    let s = chosen(words, idx);
    let g = letters(masked);
    lemma_add_letter(masked, l);
    assert forall|u: int| 0 <= u < idx.len() implies cost(l, words[#[trigger] idx[u] as int]@) + value(
        reply(s, l, words[idx[u] as int]@),
        g.insert(l),
    ) == answer_value(words, idx, masked, l, u) by {
        assert(idx.contains(idx[u]));
        lemma_group(words, idx, l, place_mask(words[idx[u] as int]@, l));
    }
    assert forall|w: Seq<u8>| #[trigger] s.contains(w) implies cost(l, w) + value(
        reply(s, l, w),
        g.insert(l),
    ) <= worst by {
        let u = choose|u: int| 0 <= u < idx.len() && words[#[trigger] idx[u] as int]@ == w;
        assert(answer_value(words, idx, masked, l, u) <= worst);
    }
    let w = words[idx[t] as int]@;
    assert(s.contains(w));
    lemma_worst_answer(s, g, l, worst, w);
}

/// The best of the guess values is the value of the position.
pub proof fn lemma_min_guess(s: Set<Seq<u8>>, g: Set<u8>, best: int, l: u8)
    requires
        is_open(s, g, l),
        guess_wins(s, g, l, best),
        forall|m: u8| #[trigger] is_open(s, g, m) ==> !guess_wins(s, g, m, best - 1),
    ensures
        value(s, g) == best,
{
    lemma_guess_to_wins(s, g, l, best);
    lemma_value_is(s, g, best);
}

/// Words that answer alike to `l` and had different signatures still do once
/// `l` is masked.
pub proof fn lemma_still_distinct(v: Seq<u8>, w: Seq<u8>, masked: u32, l: u8)
    requires
        v.len() == w.len(),
        lower_word(v),
        lower_word(w),
        is_lower(l),
        same_places(l, v, w),
        sig(v, masked) != sig(w, masked),
    ensures
        sig(v, masked | bit_of(l)) != sig(w, masked | bit_of(l)),
{
    lemma_add_letter(masked, l);
    let p = sig(v, masked);
    let q = sig(w, masked);
    if forall|j: int| 0 <= j < v.len() ==> p[j] == q[j] {
        assert(p =~= q);
    }
    let j = choose|j: int| 0 <= j < v.len() && p[j] != q[j];
    assert(at(v, j, l) == at(w, j, l));
    assert(sig(v, masked | bit_of(l))[j] != sig(w, masked | bit_of(l))[j]) by {
        assert(is_lower(v[j]) && is_lower(w[j]));
    }
}

/// A group of words with different signatures has different signatures once the
/// letter is masked.
pub proof fn lemma_group_distinct(words: Seq<Vec<u8>>, k: nat, idx: Seq<usize>, masked: u32, l: u8, m: u32)
    requires
        list_ok(words, k),
        k <= 32,
        idx_ok(idx, words.len()),
        is_lower(l),
        distinct_sigs(words, idx, masked),
    ensures
        distinct_sigs(words, group(words, idx, l, m), masked | bit_of(l)),
        idx_ok(group(words, idx, l, m), words.len()),
{
    let g = group(words, idx, l, m);
    let pred = |i: usize| place_mask(words[i as int]@, l) == m;
    lemma_filter(idx, pred);
    assert forall|t: int| 0 <= t < g.len() implies #[trigger] g[t] < words.len() by {
        assert(idx.contains(g[t]));
    }
    assert forall|a: int, b: int| 0 <= a < idx.len() && 0 <= b < idx.len() && a != b implies idx[a] != idx[b] by {
        let x = if a < b { a } else { b };
        let y = if a < b { b } else { a };
        assert(sig(words[idx[x] as int]@, masked) != sig(words[idx[y] as int]@, masked));
    }
    assert(idx.no_duplicates());
    assert forall|t: int, u: int| 0 <= t < u < g.len() implies sig(
        words[#[trigger] g[t] as int]@,
        masked | bit_of(l),
    ) != sig(words[#[trigger] g[u] as int]@, masked | bit_of(l)) by {
        assert(g[t] != g[u]);
        let a = choose|a: int| 0 <= a < idx.len() && idx[a] == g[t];
        let b = choose|b: int| 0 <= b < idx.len() && idx[b] == g[u];
        assert(idx.contains(g[t]) && idx.contains(g[u]));
        let v = words[g[t] as int]@;
        let w = words[g[u] as int]@;
        assert(pred(g[t]) && pred(g[u]));
        assert(sig(v, masked) != sig(w, masked)) by {
            if a < b {
                assert(sig(words[idx[a] as int]@, masked) != sig(words[idx[b] as int]@, masked));
            } else {
                assert(sig(words[idx[b] as int]@, masked) != sig(words[idx[a] as int]@, masked));
            }
        }
        lemma_mask_same(v, w, l);
        lemma_still_distinct(v, w, masked, l);
    }
}

/// Two words with different signatures are told apart by some unmasked letter.
pub proof fn lemma_telling_letter(v: Seq<u8>, w: Seq<u8>, masked: u32) -> (l: u8)
    requires
        v.len() == w.len(),
        lower_word(v),
        lower_word(w),
        sig(v, masked) != sig(w, masked),
    ensures
        is_lower(l),
        !holds(masked, l),
        !same_places(l, v, w),
        occurs(l, v) || occurs(l, w),
{
    let p = sig(v, masked);
    let q = sig(w, masked);
    if forall|j: int| 0 <= j < v.len() ==> p[j] == q[j] {
        assert(p =~= q);
    }
    let j = choose|j: int| 0 <= j < v.len() && p[j] != q[j];
    let l = if holds(masked, v[j]) {
        w[j]
    } else {
        v[j]
    };
    assert(is_lower(v[j]) && is_lower(w[j]));
    assert(at(v, j, l) != at(w, j, l));
    l
}

/// One index alone, or none, makes a position of value zero.
pub proof fn lemma_single(words: Seq<Vec<u8>>, idx: Seq<usize>, masked: u32)
    requires
        idx.len() <= 1,
    ensures
        position_value(words, idx, masked) == 0,
{
    let s = chosen(words, idx);
    let g = letters(masked);
    assert forall|l: u8| l != 0 && !g.contains(l) implies #[trigger] uniform(s, l) by {}
    lemma_indistinct(s, g);
    lemma_value_is(s, g, 0);
}

/// Two words whose shared letters all stand at the same places cost a miss.
proof fn lemma_pair_miss(s: Set<Seq<u8>>, g: Set<u8>, v: Seq<u8>, w: Seq<u8>, d: u8)
    requires
        s.contains(v),
        s.contains(w),
        forall|x: Seq<u8>| #[trigger] s.contains(x) ==> x == v || x == w,
        d != 0,
        !g.contains(d),
        !same_places(d, v, w),
        forall|l: u8|
            l != 0 && !#[trigger] g.contains(l) && occurs(l, v) && occurs(l, w) ==> same_places(l, v, w),
    ensures
        !wins(s, g, 0),
    decreases unguessed(g, 256),
{
    if wins(s, g, 0) {
        assert(occurs(d, v) || occurs(d, w)) by {
            if !occurs(d, v) && !occurs(d, w) {
                assert(same_places(d, v, w));
            }
        }
        assert(is_open(s, g, d));
        let l = choose|l: u8| #[trigger] is_open(s, g, l) && guess_wins(s, g, l, 0);
        assert(wins(reply(s, l, v), g.insert(l), 0 - cost(l, v)));
        assert(wins(reply(s, l, w), g.insert(l), 0 - cost(l, w)));
        assert(occurs(l, v) && occurs(l, w));
        assert(same_places(l, v, w));
        assert(reply(s, l, v) =~= s);
        lemma_unguessed_less(g, l);
        lemma_pair_miss(s, g.insert(l), v, w, d);
    }
}

/// Guessing a letter that tells two words apart leaves one of them.
proof fn lemma_pair_split(s: Set<Seq<u8>>, g: Set<u8>, v: Seq<u8>, w: Seq<u8>, d: u8, b: int)
    requires
        s.contains(v),
        s.contains(w),
        forall|x: Seq<u8>| #[trigger] s.contains(x) ==> x == v || x == w,
        d != 0,
        !g.contains(d),
        !same_places(d, v, w),
        b >= cost(d, v),
        b >= cost(d, w),
    ensures
        wins(s, g, b),
{
    assert(occurs(d, v) || occurs(d, w)) by {
        if !occurs(d, v) && !occurs(d, w) {
            assert(same_places(d, v, w));
        }
    }
    assert(is_open(s, g, d));
    assert forall|x: Seq<u8>| #[trigger] s.contains(x) implies wins(
        reply(s, d, x),
        g.insert(d),
        b - cost(d, x),
    ) by {
        let t = reply(s, d, x);
        assert forall|l: u8| l != 0 && !g.insert(d).contains(l) implies #[trigger] uniform(t, l) by {
            assert forall|p: Seq<u8>, q: Seq<u8>| #[trigger] t.contains(p) && #[trigger] t.contains(q) implies same_places(l, p, q) by {
                assert(same_places(d, x, p) && same_places(d, x, q));
                assert(same_places(d, p, q));
                assert(same_places(d, q, p));
                assert(p == q);
            }
        }
        lemma_indistinct(t, g.insert(d));
        crate::game::rules::lemma_more_budget(t, g.insert(d), 0, b - cost(d, x));
    }
    lemma_guess_to_wins(s, g, d, b);
}

/// The best guess value among the open letters below `n` is `best`; the largest
/// number where there are none.
pub open spec fn best_so_far(s: Set<Seq<u8>>, g: Set<u8>, n: int, best: u32) -> bool {
    &&& forall|l: u8| l < n && #[trigger] is_open(s, g, l) ==> best < u32::MAX && !guess_wins(s, g, l, best - 1)
    &&& best < u32::MAX ==> exists|l: u8| #[trigger] is_open(s, g, l) && guess_wins(s, g, l, best as int)
}

/// Evaluating one more letter.
pub proof fn lemma_best_step(s: Set<Seq<u8>>, g: Set<u8>, l: u8, best: u32, worst: u32)
    requires
        best_so_far(s, g, l as int, best),
        is_open(s, g, l),
        is_guess_value(s, g, l, worst as int),
        worst < u32::MAX,
    ensures
        best_so_far(s, g, l + 1, if worst < best { worst } else { best }),
{
    let new_best: u32 = if worst < best { worst } else { best };
    assert forall|m: u8| m < l + 1 && #[trigger] is_open(s, g, m) implies !guess_wins(s, g, m, new_best - 1) by {
        let limit: int = if m == l { worst as int } else { best as int };
        if guess_wins(s, g, m, new_best - 1) {
            lemma_guess_more_budget(s, g, m, new_best - 1, limit - 1);
        }
    }
}

pub proof fn lemma_best_zero(s: Set<Seq<u8>>, g: Set<u8>, n: int)
    requires
        best_so_far(s, g, n, 0),
    ensures
        value(s, g) == 0,
{
    let l = choose|l: u8| #[trigger] is_open(s, g, l) && guess_wins(s, g, l, 0);
    lemma_guess_to_wins(s, g, l, 0);
    lemma_value_is(s, g, 0);
}

/// Once every letter has been evaluated, the best is the value.
pub proof fn lemma_best_done(words: Seq<Vec<u8>>, k: nat, idx: Seq<usize>, masked: u32, best: u32)
    requires
        list_ok(words, k),
        idx_ok(idx, words.len()),
        best_so_far(chosen(words, idx), letters(masked), 123, best),
        !no_open(chosen(words, idx), letters(masked)),
    ensures
        best == position_value(words, idx, masked),
{
    let s = chosen(words, idx);
    let g = letters(masked);
    lemma_chosen_plain(words, idx, k);
    assert forall|l: u8| #[trigger] is_open(s, g, l) implies l < 123 by {
        let w = choose|w: Seq<u8>| #[trigger] s.contains(w) && occurs(l, w);
        let j = choose|j: int| #[trigger] at(w, j, l);
        assert(97 <= w[j] <= 122);
    }
    let o = choose|o: u8| #[trigger] is_open(s, g, o);
    assert(best < u32::MAX);
    let l = choose|l: u8| #[trigger] is_open(s, g, l) && guess_wins(s, g, l, best as int);
    lemma_min_guess(s, g, best as int, l);
}

/// Two words with different signatures leave some letter open.
pub proof fn lemma_open_letter(words: Seq<Vec<u8>>, k: nat, idx: Seq<usize>, masked: u32)
    requires
        list_ok(words, k),
        idx_ok(idx, words.len()),
        idx.len() >= 2,
        distinct_sigs(words, idx, masked),
    ensures
        !no_open(chosen(words, idx), letters(masked)),
{
    let v = words[idx[0] as int]@;
    let w = words[idx[1] as int]@;
    let s = chosen(words, idx);
    assert(s.contains(v) && s.contains(w));
    let l = lemma_telling_letter(v, w, masked);
    assert(is_open(s, letters(masked), l));
}

/// A letter is open where it is not masked and some place mask is not zero.
pub proof fn lemma_open_by_mask(words: Seq<Vec<u8>>, idx: Seq<usize>, masked: u32, l: u8)
    requires
        short_words(words),
        idx_ok(idx, words.len()),
        is_lower(l),
    ensures
        is_open(chosen(words, idx), letters(masked), l) == (!holds(masked, l) && exists|t: int|
            0 <= t < idx.len() && place_mask(words[#[trigger] idx[t] as int]@, l) != 0),
{
    let s = chosen(words, idx);
    if is_open(s, letters(masked), l) {
        let w = choose|w: Seq<u8>| #[trigger] s.contains(w) && occurs(l, w);
        let t = choose|t: int| 0 <= t < idx.len() && words[#[trigger] idx[t] as int]@ == w;
        lemma_mask_bits(w, l);
        assert(place_mask(words[idx[t] as int]@, l) != 0);
    }
    if !holds(masked, l) && exists|t: int| 0 <= t < idx.len() && place_mask(words[#[trigger] idx[t] as int]@, l) != 0 {
        let t = choose|t: int| 0 <= t < idx.len() && place_mask(words[#[trigger] idx[t] as int]@, l) != 0;
        lemma_mask_bits(words[idx[t] as int]@, l);
        assert(s.contains(words[idx[t] as int]@));
    }
}

/// The groups of three words.
proof fn lemma_group_three(words: Seq<Vec<u8>>, a: usize, b: usize, c: usize, l: u8, m: u32)
    ensures
        ({
            let pa = place_mask(words[a as int]@, l) == m;
            let pb = place_mask(words[b as int]@, l) == m;
            let pc = place_mask(words[c as int]@, l) == m;
            let r = group(words, seq![a, b, c], l, m);
            &&& pa && pb && pc ==> r == seq![a, b, c]
            &&& pa && pb && !pc ==> r == seq![a, b]
            &&& pa && !pb && pc ==> r == seq![a, c]
            &&& !pa && pb && pc ==> r == seq![b, c]
            &&& pa && !pb && !pc ==> r == seq![a]
            &&& !pa && pb && !pc ==> r == seq![b]
            &&& !pa && !pb && pc ==> r == seq![c]
        }),
{
    let pred = |i: usize| place_mask(words[i as int]@, l) == m;
    let idx = seq![a, b, c];
    reveal_with_fuel(Seq::filter, 4);
    assert(idx.take(0) =~= Seq::<usize>::empty());
    lemma_filter_take(idx, pred, 0);
    lemma_filter_take(idx, pred, 1);
    lemma_filter_take(idx, pred, 2);
    assert(idx.take(3) =~= idx);
    let r = group(words, idx, l, m);
    assert(r =~= idx.take(3).filter(pred));
    let pa = pred(a);
    let pb = pred(b);
    let pc = pred(c);
    if pa && pb && pc {
        assert(r =~= seq![a, b, c]);
    } else if pa && pb {
        assert(r =~= seq![a, b]);
    } else if pa && pc {
        assert(r =~= seq![a, c]);
    } else if pb && pc {
        assert(r =~= seq![b, c]);
    } else if pa {
        assert(r =~= seq![a]);
    } else if pb {
        assert(r =~= seq![b]);
    } else if pc {
        assert(r =~= seq![c]);
    }
}

fn larger(a: u32, b: u32) -> (r: u32)
    ensures
        r == if a >= b {
            a
        } else {
            b
        },
{
    if a >= b {
        a
    } else {
        b
    }
}

impl SolverData {
    /// The value of exactly two words with different signatures: zero where some
    /// unmasked letter stands in both at different places, else one.
    pub(crate) fn solve_two_words(
        &self,
        Ghost(words): Ghost<Seq<Vec<u8>>>,
        Ghost(k): Ghost<nat>,
        idx_a: usize,
        idx_b: usize,
        masked: LetterSet,
    ) -> (r: u32)
        requires
            self.wf(words, k),
            idx_ok(seq![idx_a, idx_b], words.len()),
            distinct_sigs(words, seq![idx_a, idx_b], masked),
        ensures
            r == position_value(words, seq![idx_a, idx_b], masked),
            r <= 1,
    {
        let ghost idx = seq![idx_a, idx_b];
        let ghost s = chosen(words, idx);
        let ghost g = letters(masked);
        let ghost v = words[idx_a as int]@;
        let ghost w = words[idx_b as int]@;
        proof {
            assert(idx[0] == idx_a && idx[1] == idx_b);
            assert(s.contains(v) && s.contains(w));
            assert forall|x: Seq<u8>| #[trigger] s.contains(x) implies x == v || x == w by {}
        }
        let mut li: u8 = 0;
        while li < 26
            invariant
                li <= 26,
                self.wf(words, k),
                idx_a < words.len(),
                idx_b < words.len(),
                v == words[idx_a as int]@,
                w == words[idx_b as int]@,
                s == chosen(words, seq![idx_a, idx_b]),
                g == letters(masked),
                s.contains(v),
                s.contains(w),
                forall|x: Seq<u8>| #[trigger] s.contains(x) ==> x == v || x == w,
                forall|l: u8|
                    l < 97 + li && is_lower(l) && !#[trigger] g.contains(l) && occurs(l, v) && occurs(l, w)
                        ==> same_places(l, v, w),
            decreases 26 - li,
        {
            let letter: u8 = 97 + li;
            proof {
                lemma_test_letter(masked, letter);
                lemma_mask_bits(v, letter);
                lemma_mask_bits(w, letter);
                lemma_mask_same(v, w, letter);
            }
            if masked & letter_bit(letter) == 0 {
                let mask_a: u32 = self.pos_mask_for(Ghost(words), Ghost(k), idx_a, letter);
                let mask_b: u32 = self.pos_mask_for(Ghost(words), Ghost(k), idx_b, letter);
                if mask_a != 0 && mask_b != 0 && mask_a != mask_b {
                    proof {
                        lemma_pair_split(s, g, v, w, letter, 0);
                        lemma_value_is(s, g, 0);
                    }
                    return 0;
                }
            }
            li += 1;
        }
        proof {
            assert(idx[0] == idx_a && idx[1] == idx_b);
            let d = lemma_telling_letter(v, w, masked);
            assert forall|l: u8| l != 0 && !#[trigger] g.contains(l) && occurs(l, v) && occurs(l, w) implies same_places(l, v, w) by {
                let j = choose|j: int| #[trigger] at(v, j, l);
                assert(is_lower(v[j]));
            }
            lemma_pair_miss(s, g, v, w, d);
            lemma_pair_split(s, g, v, w, d, 1);
            lemma_value_is(s, g, 1);
        }
        1
    }

    /// The value of exactly three words with different signatures.
    pub(crate) fn solve_three_words(
        &self,
        Ghost(words): Ghost<Seq<Vec<u8>>>,
        Ghost(k): Ghost<nat>,
        idx_a: usize,
        idx_b: usize,
        idx_c: usize,
        masked: LetterSet,
    ) -> (r: u32)
        requires
            self.wf(words, k),
            idx_ok(seq![idx_a, idx_b, idx_c], words.len()),
            distinct_sigs(words, seq![idx_a, idx_b, idx_c], masked),
        ensures
            r == position_value(words, seq![idx_a, idx_b, idx_c], masked),
            r <= 25,
        decreases 26 - bits_below(masked, 26),
    {
        let ghost idx = seq![idx_a, idx_b, idx_c];
        let ghost s = chosen(words, idx);
        let ghost g = letters(masked);
        proof {
            lemma_open_letter(words, k, idx, masked);
            lemma_chosen_plain(words, idx, k);
            lemma_at_most_25(s, g, k);
        }
        let mut best: u32 = u32::MAX;
        let mut li: u8 = 0;
        while li < 26
            invariant
                li <= 26,
                self.wf(words, k),
                idx == seq![idx_a, idx_b, idx_c],
                idx_ok(idx, words.len()),
                distinct_sigs(words, idx, masked),
                s == chosen(words, idx),
                g == letters(masked),
                best_so_far(s, g, 97 + li, best),
                value(s, g) <= 25,
            decreases 26 - li,
        {
            let letter: u8 = 97 + li;
            proof {
                lemma_test_letter(masked, letter);
                assert(idx[0] == idx_a && idx[1] == idx_b && idx[2] == idx_c);
                lemma_open_by_mask(words, idx, masked, letter);
            }
            if masked & letter_bit(letter) == 0 {
                let ma: u32 = self.pos_mask_for(Ghost(words), Ghost(k), idx_a, letter);
                let mb: u32 = self.pos_mask_for(Ghost(words), Ghost(k), idx_b, letter);
                let mc: u32 = self.pos_mask_for(Ghost(words), Ghost(k), idx_c, letter);
                if ma != 0 || mb != 0 || mc != 0 {
                    let new_masked: LetterSet = masked | letter_bit(letter);
                    proof {
                        lemma_add_counts(masked, letter, 26);
                        lemma_bits_below(new_masked, 26);
                        lemma_group_three(words, idx_a, idx_b, idx_c, letter, ma);
                        lemma_group_three(words, idx_a, idx_b, idx_c, letter, mb);
                        lemma_group_three(words, idx_a, idx_b, idx_c, letter, mc);
                        lemma_group_distinct(words, k, idx, masked, letter, ma);
                        lemma_group_distinct(words, k, idx, masked, letter, mb);
                        lemma_group_distinct(words, k, idx, masked, letter, mc);
                        lemma_single(words, seq![idx_a], new_masked);
                        lemma_single(words, seq![idx_b], new_masked);
                        lemma_single(words, seq![idx_c], new_masked);
                        assert(place_mask(words[idx[0] as int]@, letter) == ma);
                        assert(place_mask(words[idx[1] as int]@, letter) == mb);
                        assert(place_mask(words[idx[2] as int]@, letter) == mc);
                    }
                    let cost_a: u32 = if ma == 0 { 1 } else { 0 };
                    let cost_b: u32 = if mb == 0 { 1 } else { 0 };
                    let cost_c: u32 = if mc == 0 { 1 } else { 0 };
                    let worst: u32 = if ma == mb && mb == mc {
                        cost_a + self.solve_three_words(Ghost(words), Ghost(k), idx_a, idx_b, idx_c, new_masked)
                    } else if ma == mb {
                        larger(cost_a + self.solve_two_words(Ghost(words), Ghost(k), idx_a, idx_b, new_masked), cost_c)
                    } else if ma == mc {
                        larger(cost_a + self.solve_two_words(Ghost(words), Ghost(k), idx_a, idx_c, new_masked), cost_b)
                    } else if mb == mc {
                        larger(cost_b + self.solve_two_words(Ghost(words), Ghost(k), idx_b, idx_c, new_masked), cost_a)
                    } else {
                        larger(larger(cost_a, cost_b), cost_c)
                    };
                    proof {
                        let va = answer_value(words, idx, masked, letter, 0);
                        let vb = answer_value(words, idx, masked, letter, 1);
                        let vc = answer_value(words, idx, masked, letter, 2);
                        assert(va <= worst && vb <= worst && vc <= worst);
                        assert(worst == va || worst == vb || worst == vc);
                        assert forall|u: int| 0 <= u < idx.len() implies #[trigger] answer_value(words, idx, masked, letter, u) <= worst by {
                            assert(u == 0 || u == 1 || u == 2);
                        }
                        let t = if worst == va { 0int } else if worst == vb { 1int } else { 2int };
                        lemma_guess_value(words, idx, masked, letter, worst as int, t);
                        lemma_best_step(s, g, letter, best, worst);
                    }
                    if worst < best {
                        best = worst;
                    }
                    if best == 0 {
                        proof {
                            lemma_best_zero(s, g, 97 + li + 1);
                        }
                        return 0;
                    }
                } else {
                    proof {
                        assert(!is_open(s, g, letter));
                    }
                }
            }
            li += 1;
        }
        proof {
            lemma_best_done(words, k, idx, masked, best);
        }
        best
    }

    /// The largest value among the answers of four words with the given place
    /// masks, once the letter is in `new_masked`.
    fn evaluate_four_word_partitions(
        &self,
        Ghost(words): Ghost<Seq<Vec<u8>>>,
        Ghost(k): Ghost<nat>,
        idxs: [usize; 4],
        masks: [u32; 4],
        masked: LetterSet,
        letter: u8,
    ) -> (worst: u32)
        requires
            self.wf(words, k),
            idx_ok(idxs@, words.len()),
            distinct_sigs(words, idxs@, masked),
            is_lower(letter),
            !holds(masked, letter),
            forall|t: int| 0 <= t < 4 ==> #[trigger] masks@[t] == place_mask(words[idxs@[t] as int]@, letter),
        ensures
            is_guess_value(chosen(words, idxs@), letters(masked), letter, worst as int),
            worst <= 26,
        decreases 26 - bits_below(masked, 26), 0int,
    {
        let ghost idx = idxs@;
        let new_masked: LetterSet = masked | letter_bit(letter);
        proof {
            lemma_add_counts(masked, letter, 26);
            lemma_bits_below(new_masked, 26);
        }
        let mut worst: u32 = 0;
        let mut i: usize = 0;
        let ghost mut top: int = 0;
        while i < 4
            invariant
                i <= 4,
                self.wf(words, k),
                idx == idxs@,
                idx_ok(idx, words.len()),
                distinct_sigs(words, idx, masked),
                is_lower(letter),
                new_masked == masked | bit_of(letter),
                bits_below(masked, 26) < bits_below(new_masked, 26) <= 26,
                forall|t: int| 0 <= t < 4 ==> #[trigger] masks@[t] == place_mask(words[idx[t] as int]@, letter),
                forall|t: int| 0 <= t < i ==> #[trigger] answer_value(words, idx, masked, letter, t) <= worst,
                0 <= top < 4,
                i > 0 ==> worst == answer_value(words, idx, masked, letter, top),
                i == 0 ==> worst == 0,
                worst <= 26,
            decreases 4 - i,
        {
            let mask: u32 = masks[i];
            let ghost pred = |j: usize| place_mask(words[j as int]@, letter) == mask;
            let mut members: Vec<usize> = Vec::new();
            let mut j: usize = 0;
            proof {
                assert(idx.take(0) =~= Seq::empty());
                reveal(Seq::filter);
                assert(members@ =~= idx.take(0).filter(pred));
            }
            while j < 4
                invariant
                    j <= 4,
                    idx == idxs@,
                    pred == |j: usize| place_mask(words[j as int]@, letter) == mask,
                    forall|t: int| 0 <= t < 4 ==> #[trigger] masks@[t] == place_mask(words[idx[t] as int]@, letter),
                    members@ == idx.take(j as int).filter(pred),
                    members@.len() <= j,
                decreases 4 - j,
            {
                proof {
                    lemma_filter_take(idx, pred, j as int);
                }
                if masks[j] == mask {
                    members.push(idxs[j]);
                }
                j += 1;
            }
            proof {
                assert(idx.take(4) =~= idx);
                assert(members@ == group(words, idx, letter, mask));
                lemma_group_distinct(words, k, idx, masked, letter, mask);
                lemma_filter(idx, pred);
                assert(pred(idx[i as int]));
                assert(members@.contains(idx[i as int]));
                lemma_chosen_plain(words, members@, k);
                lemma_at_most_25(chosen(words, members@), letters(new_masked), k);
            }
            let miss_cost: u32 = if mask == 0 { 1 } else { 0 };
            let rest: u32 = if members.len() == 1 {
                proof {
                    lemma_single(words, members@, new_masked);
                }
                0
            } else if members.len() == 2 {
                assert(members@ =~= seq![members@[0], members@[1]]);
                self.solve_two_words(Ghost(words), Ghost(k), members[0], members[1], new_masked)
            } else if members.len() == 3 {
                assert(members@ =~= seq![members@[0], members@[1], members@[2]]);
                self.solve_three_words(Ghost(words), Ghost(k), members[0], members[1], members[2], new_masked)
            } else {
                let four: [usize; 4] = [members[0], members[1], members[2], members[3]];
                assert(four@ =~= members@);
                self.solve_four_words(Ghost(words), Ghost(k), four, new_masked)
            };
            let val: u32 = miss_cost + rest;
            proof {
                assert(val == answer_value(words, idx, masked, letter, i as int));
                if i == 0 || val > worst {
                    top = i as int;
                }
            }
            if val > worst {
                worst = val;
            }
            i += 1;
        }
        proof {
            lemma_guess_value(words, idx, masked, letter, worst as int, top);
        }
        worst
    }

    /// The value of exactly four words with different signatures.
    pub(crate) fn solve_four_words(
        &self,
        Ghost(words): Ghost<Seq<Vec<u8>>>,
        Ghost(k): Ghost<nat>,
        idxs: [usize; 4],
        masked: LetterSet,
    ) -> (r: u32)
        requires
            self.wf(words, k),
            idx_ok(idxs@, words.len()),
            distinct_sigs(words, idxs@, masked),
        ensures
            r == position_value(words, idxs@, masked),
            r <= 25,
        decreases 26 - bits_below(masked, 26), 1int,
    {
        let ghost idx = idxs@;
        let ghost s = chosen(words, idx);
        let ghost g = letters(masked);
        proof {
            lemma_open_letter(words, k, idx, masked);
            lemma_chosen_plain(words, idx, k);
            lemma_at_most_25(s, g, k);
        }
        let mut best: u32 = u32::MAX;
        let mut li: u8 = 0;
        while li < 26
            invariant
                li <= 26,
                self.wf(words, k),
                idx == idxs@,
                idx_ok(idx, words.len()),
                distinct_sigs(words, idx, masked),
                s == chosen(words, idx),
                g == letters(masked),
                best_so_far(s, g, 97 + li, best),
                value(s, g) <= 25,
            decreases 26 - li,
        {
            let letter: u8 = 97 + li;
            proof {
                lemma_test_letter(masked, letter);
                lemma_open_by_mask(words, idx, masked, letter);
            }
            if masked & letter_bit(letter) == 0 {
                let m0: u32 = self.pos_mask_for(Ghost(words), Ghost(k), idxs[0], letter);
                let m1: u32 = self.pos_mask_for(Ghost(words), Ghost(k), idxs[1], letter);
                let m2: u32 = self.pos_mask_for(Ghost(words), Ghost(k), idxs[2], letter);
                let m3: u32 = self.pos_mask_for(Ghost(words), Ghost(k), idxs[3], letter);
                if m0 != 0 || m1 != 0 || m2 != 0 || m3 != 0 {
                    let masks: [u32; 4] = [m0, m1, m2, m3];
                    proof {
                        assert forall|t: int| 0 <= t < 4 implies #[trigger] masks@[t] == place_mask(words[idx[t] as int]@, letter) by {
                            assert(t == 0 || t == 1 || t == 2 || t == 3);
                        }
                    }
                    let worst: u32 = self.evaluate_four_word_partitions(Ghost(words), Ghost(k), idxs, masks, masked, letter);
                    proof {
                        lemma_best_step(s, g, letter, best, worst);
                    }
                    if worst < best {
                        best = worst;
                    }
                    if best == 0 {
                        proof {
                            lemma_best_zero(s, g, 97 + li + 1);
                        }
                        return 0;
                    }
                } else {
                    proof {
                        assert forall|t: int| 0 <= t < idx.len() implies place_mask(words[#[trigger] idx[t] as int]@, letter) == 0 by {
                            assert(t == 0 || t == 1 || t == 2 || t == 3);
                        }
                        assert(!is_open(s, g, letter));
                    }
                }
            }
            li += 1;
        }
        proof {
            lemma_best_done(words, k, idx, masked, best);
        }
        best
    }
}

} // verus!
