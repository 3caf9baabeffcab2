//! A plain minimax search: no caching, no pruning. It serves as the oracle for
//! the faster solvers.
use std::collections::HashMap;

use vstd::prelude::*;

use crate::game::letters::{
    holds, is_lower, lemma_add_letter, lemma_bit_ops, lemma_has_ops, lemma_has_zero, lemma_mask_bits, lemma_mask_same,
    lemma_some_letter, lemma_test_letter, letter_bit, lemma_all_letters, letters, letters_of, lower_word, place_mask, pos_mask, only_letters, LetterSet, ALL_LETTERS,
};
use crate::game::rules::{
    at, cost, guess_wins, is_open, lemma_guess_to_wins, lemma_indistinct, lemma_unguessed_less,
    lemma_value_at_most_risky, lemma_value_is, lemma_worst_answer, no_open, occurs, open_count, reply, unguessed, uniform, value,
    wins, lemma_guess_more_budget,
};
use crate::game::value_laws::{
    is_renaming, lemma_value_below_words, lemma_value_moved, lemma_value_renamed, moved_word, moved_words, renamed,
    renamed_words,
};
use crate::seqs::{lemma_filter, lemma_filter_take};
use crate::sorting::perm_of;

verus! {

/// Naive minimax solver.
pub struct NaiveSolver;

/// The words of a slice, as a set.
pub open spec fn slice_words(words: Seq<&[u8]>) -> Set<Seq<u8>> {
    Set::new(|w: Seq<u8>| exists|i: int| 0 <= i < words.len() && (#[trigger] words[i])@ == w)
}

/// Every word fits a place mask and holds only letters.
pub open spec fn slice_ok(words: Seq<&[u8]>) -> bool {
    forall|i: int|
        0 <= i < words.len() ==> (#[trigger] words[i])@.len() <= 32 && lower_word(words[i]@)
}

/// The words whose place mask for `l` is `m`, in order.
pub open spec fn slice_group<'a>(words: Seq<&'a [u8]>, l: u8, m: u32) -> Seq<&'a [u8]> {
    words.filter(|w: &'a [u8]| place_mask(w@, l) == m)
}

/// A group holds the words that the referee's answer leaves.
proof fn lemma_group(words: Seq<&[u8]>, l: u8, m: u32)
    requires
        slice_ok(words),
    ensures
        slice_ok(slice_group(words, l, m)),
        forall|i: int|
            0 <= i < words.len() && place_mask((#[trigger] words[i])@, l) == m ==> slice_words(
                slice_group(words, l, m),
            ) == reply(slice_words(words), l, words[i]@) && cost(l, words[i]@) == (if m == 0 {
                1int
            } else {
                0int
            }),
        slice_group(words, l, m).len() > 0 ==> exists|i: int|
            0 <= i < words.len() && place_mask((#[trigger] words[i])@, l) == m,
{
    let group = slice_group(words, l, m);
    let s = slice_words(words);
    lemma_filter(words, |w: &[u8]| place_mask(w@, l) == m);
    if group.len() > 0 {
        assert(words.contains(group[0]));
    }
    assert forall|i: int| 0 <= i < group.len() implies (#[trigger] group[i])@.len() <= 32 && lower_word(group[i]@) by {
        assert(words.contains(group[i]));
    }
    assert forall|i: int|
        0 <= i < words.len() && place_mask((#[trigger] words[i])@, l) == m implies slice_words(
        group,
    ) == reply(s, l, words[i]@) && cost(l, words[i]@) == (if m == 0 {
        1int
    } else {
        0int
    }) by {
        lemma_mask_bits(words[i]@, l);
        assert forall|w: Seq<u8>| slice_words(group).contains(w) == reply(s, l, words[i]@).contains(w) by {
            if slice_words(group).contains(w) {
                let j = choose|j: int| 0 <= j < group.len() && (#[trigger] group[j])@ == w;
                assert(words.contains(group[j]));
                let k = choose|k: int| 0 <= k < words.len() && words[k] == group[j];
                assert(words[k]@ == w);
                lemma_mask_same(words[i]@, w, l);
            }
            if reply(s, l, words[i]@).contains(w) {
                let k = choose|k: int| 0 <= k < words.len() && (#[trigger] words[k])@ == w;
                lemma_mask_same(words[i]@, w, l);
                assert(group.contains(words[k]));
                let j = choose|j: int| 0 <= j < group.len() && group[j] == words[k];
                assert(group[j]@ == w);
            }
        }
        assert(slice_words(group) =~= reply(s, l, words[i]@));
    }
}

/// The worst group gives the value of the guess.
proof fn lemma_worst(words: Seq<&[u8]>, l: u8, g: Set<u8>, map: Map<u32, Vec<&[u8]>>, worst: int)
    requires
        words.len() > 0,
        slice_ok(words),
        worst >= 0,
        forall|m: u32| #[trigger]
            map.contains_key(m) ==> map[m]@ == slice_group(words, l, m) && map[m]@.len() > 0,
        forall|i: int|
            0 <= i < words.len() ==> map.contains_key(place_mask((#[trigger] words[i])@, l)),
        forall|m: u32| #[trigger]
            map.contains_key(m) ==> (if m == 0 {
                1int
            } else {
                0int
            }) + value(slice_words(slice_group(words, l, m)), g.insert(l)) <= worst,
        worst > 0 ==> exists|m: u32| #[trigger]
            map.contains_key(m) && worst == (if m == 0 {
                1int
            } else {
                0int
            }) + value(slice_words(slice_group(words, l, m)), g.insert(l)),
    ensures
        guess_wins(slice_words(words), g, l, worst),
        !guess_wins(slice_words(words), g, l, worst - 1),
{
    let s = slice_words(words);
    assert forall|w: Seq<u8>| #[trigger] s.contains(w) implies cost(l, w) + value(
        reply(s, l, w),
        g.insert(l),
    ) <= worst by {
        let i = choose|i: int| 0 <= i < words.len() && (#[trigger] words[i])@ == w;
        lemma_group(words, l, place_mask(w, l));
        assert(map.contains_key(place_mask(w, l)));
    }
    if worst > 0 {
        let m = choose|m: u32| #[trigger]
            map.contains_key(m) && worst == (if m == 0 {
                1int
            } else {
                0int
            }) + value(slice_words(slice_group(words, l, m)), g.insert(l));
        lemma_group(words, l, m);
        let i = choose|i: int| 0 <= i < words.len() && place_mask((#[trigger] words[i])@, l) == m;
        assert(s.contains(words[i]@));
        lemma_worst_answer(s, g, l, worst, words[i]@);
    } else {
        let w = words[0]@;
        assert(s.contains(w));
        lemma_worst_answer(s, g, l, worst, w);
    }
}

/// Partition words by the places where `letter` stands: a map from place mask
/// to the words with that mask, in order. The mask zero is a miss.
fn partition_by_letter<'a>(words: &[&'a [u8]], letter: u8) -> (map: HashMap<u32, Vec<&'a [u8]>>)
    requires
        slice_ok(words@),
    ensures
        forall|m: u32| #[trigger]
            map@.contains_key(m) ==> map@[m]@ == slice_group(words@, letter, m) && map@[m]@.len() > 0,
        forall|i: int|
            0 <= i < words@.len() ==> map@.contains_key(
                place_mask((#[trigger] words@[i])@, letter),
            ),
{
    let mut map: HashMap<u32, Vec<&'a [u8]>> = HashMap::new();
    let mut i: usize = 0;
    proof {
        assert(words@.take(0) =~= Seq::empty());
    }
    while i < words.len()
        invariant
            i <= words@.len(),
            slice_ok(words@),
            forall|m: u32| #[trigger]
                map@.contains_key(m) ==> map@[m]@ == slice_group(words@.take(i as int), letter, m)
                    && map@[m]@.len() > 0,
            forall|m: u32| !#[trigger]
                map@.contains_key(m) ==> slice_group(words@.take(i as int), letter, m).len() == 0,
            forall|j: int|
                0 <= j < i ==> map@.contains_key(place_mask((#[trigger] words@[j])@, letter)),
        decreases words@.len() - i,
    {
        let word = words[i];
        let mask: u32 = pos_mask(word, letter);
        let ghost old_map = map@;
        map.entry(mask).or_insert(Vec::new()).push(word);
        proof {
            let t = words@.take(i as int);
            assert forall|m: u32| #[trigger] slice_group(words@.take(i + 1), letter, m) == if m == mask {
                slice_group(t, letter, m).push(word)
            } else {
                slice_group(t, letter, m)
            } by {
                lemma_filter_take(words@, |w: &[u8]| place_mask(w@, letter) == m, i as int);
            }
            if !old_map.contains_key(mask) {
                assert(slice_group(t, letter, mask) =~= Seq::empty());
            }
            assert(map@.dom() =~= old_map.dom().insert(mask));
        }
        i += 1;
    }
    proof {
        assert(words@.take(i as int) =~= words@);
    }
    map
}

impl NaiveSolver {
    /// The minimax-optimal number of misses for the given words, when the
    /// letters of `guessed` have been guessed already.
    pub fn solve(words: &[&[u8]], guessed: LetterSet) -> (r: u32)
        requires
            words@.len() > 0,
            slice_ok(words@),
        ensures
            r == value(slice_words(words@), letters(guessed)),
        decreases unguessed(letters(guessed), 256),
    {
        let ghost s = slice_words(words@);
        let ghost g = letters(guessed);
        if words.len() == 1 {
            proof {
                assert forall|l: u8| l != 0 && !g.contains(l) implies #[trigger] uniform(s, l) by {}
                lemma_indistinct(s, g);
                lemma_value_is(s, g, 0);
            }
            return 0;
        }
        let remaining: u32 = ALL_LETTERS & !guessed;
        let mut present: u32 = 0;
        let mut i: usize = 0;
        proof {
            lemma_has_zero();
        }
        while i < words.len()
            invariant
                i <= words@.len(),
                slice_ok(words@),
                forall|c: u8| #[trigger] holds(present, c) == exists|j: int| 0 <= j < i && occurs(c, (#[trigger] words@[j])@),
            decreases words@.len() - i,
        {
            let ghost before = present;
            let l: u32 = letters_of(words[i]);
            present |= l;
            proof {
                lemma_has_ops(before, l);
                assert forall|c: u8| #[trigger] holds(present, c) == exists|j: int| 0 <= j < i + 1 && occurs(c, (#[trigger] words@[j])@) by {
                    assert(holds(before, c) == exists|j: int| 0 <= j < i && occurs(c, (#[trigger] words@[j])@));
                    assert(holds(l, c) == occurs(c, words@[i as int]@));
                }
            }
            i += 1;
        }
        let useful: u32 = remaining & present;
        proof {
            lemma_all_letters();
            lemma_has_ops(ALL_LETTERS, !guessed);
            lemma_has_ops(guessed, 0);
            lemma_has_ops(remaining, present);
            assert forall|c: u8|
                    #![trigger holds(useful, c)]
                    #![trigger is_open(s, g, c)]
                    holds(useful, c) == is_open(s, g, c) by {
                if is_open(s, g, c) {
                    let w = choose|w: Seq<u8>| #[trigger] s.contains(w) && occurs(c, w);
                    let j = choose|j: int| 0 <= j < words@.len() && (#[trigger] words@[j])@ == w;
                    let p = choose|p: int| #[trigger] at(w, p, c);
                    assert(is_lower(w[p]));
                    assert(holds(present, c));
                }
                if holds(useful, c) {
                    let j = choose|j: int| 0 <= j < words@.len() && occurs(c, (#[trigger] words@[j])@);
                    assert(s.contains(words@[j]@));
                }
            }
        }
        if useful == 0 {
            proof {
                lemma_has_zero();
                assert(no_open(s, g));
                lemma_value_is(s, g, 0);
            }
            return 0;
        }
        proof {
            lemma_bit_ops(ALL_LETTERS, !guessed);
            lemma_bit_ops(remaining, present);
            assert(only_letters(useful));
            let c = lemma_some_letter(useful);
            assert(is_open(s, g, c));
        }
        let mut best: u32 = u32::MAX;
        let mut li: u8 = 0;
        while li < 26
            invariant
                li <= 26,
                words@.len() > 0,
                slice_ok(words@),
                s == slice_words(words@),
                g == letters(guessed),
                forall|c: u8|
                    #![trigger holds(useful, c)]
                    #![trigger is_open(s, g, c)]
                    holds(useful, c) == is_open(s, g, c),
                forall|c: u8| c < 97 + li && #[trigger] is_open(s, g, c) ==> !guess_wins(s, g, c, best - 1),
                exists|c: u8| #[trigger] is_open(s, g, c),
                best == u32::MAX ==> forall|c: u8| #[trigger] is_open(s, g, c) ==> c >= 97 + li,
                best != u32::MAX ==> exists|c: u8| #[trigger] is_open(s, g, c) && guess_wins(s, g, c, best as int),
            decreases 26 - li,
        {
            let letter: u8 = 97 + li;
            let letter_mask: u32 = letter_bit(letter);
            proof {
                lemma_test_letter(useful, letter);
                lemma_add_letter(guessed, letter);
            }
            if useful & letter_mask != 0 {
                proof {
                    lemma_unguessed_less(g, letter);
                }
                let new_guessed: u32 = guessed | letter_mask;
                let partitions = partition_by_letter(words, letter);
                let mut worst: u32 = 0;
                for pair in it: partitions.iter()
                    invariant
                        words@.len() > 0,
                        slice_ok(words@),
                        s == slice_words(words@),
                        g == letters(guessed),
                        is_lower(letter),
                        letters(new_guessed) == g.insert(letter),
                        unguessed(g.insert(letter), 256) < unguessed(g, 256),
                        forall|m: u32| #[trigger]
                            partitions@.contains_key(m) ==> partitions@[m]@ == slice_group(words@, letter, m)
                                && partitions@[m]@.len() > 0,
                        worst <= 257,
                        forall|t: int| 0 <= t < it.index() ==> {
                            let m = *(#[trigger] it.seq()[t]).0;
                            (if m == 0 { 1int } else { 0int }) + value(
                                slice_words(slice_group(words@, letter, m)),
                                g.insert(letter),
                            ) <= worst
                        },
                        worst > 0 ==> exists|m: u32| #[trigger] partitions@.contains_key(m) && worst == (if m == 0 { 1int } else { 0int }) + value(
                            slice_words(slice_group(words@, letter, m)),
                            g.insert(letter),
                        ),
                {
                    let (pos_mask, group) = pair;
                    let miss_cost: u32 = if *pos_mask == 0 { 1 } else { 0 };
                    proof {
                        assert(partitions@.contains_key(*pos_mask));
                        lemma_group(words@, letter, *pos_mask);
                        lemma_value_at_most_risky(slice_words(group@), g.insert(letter));
                    }
                    let v: u32 = miss_cost + Self::solve(group.as_slice(), new_guessed);
                    if v > worst {
                        worst = v;
                    }
                }
                let ghost before = best as int;
                if worst < best {
                    best = worst;
                }
                proof {
                    lemma_worst(words@, letter, g, partitions@, worst as int);
                    assert forall|c: u8| c < 97 + li + 1 && #[trigger] is_open(s, g, c) implies !guess_wins(s, g, c, best - 1) by {
                        let limit = if c == letter { worst as int } else { before };
                        if guess_wins(s, g, c, best - 1) {
                            lemma_guess_more_budget(s, g, c, best - 1, limit - 1);
                        }
                    }
                }
            }
            li += 1;
        }
        proof {
            let c = choose|c: u8| #[trigger] is_open(s, g, c) && guess_wins(s, g, c, best as int);
            assert(is_open(s, g, c));
            lemma_guess_to_wins(s, g, c, best as int);
            if wins(s, g, best - 1) {
                let d = choose|d: u8| #[trigger] is_open(s, g, d) && guess_wins(s, g, d, best - 1);
                assert(is_lower(d));
            }
            lemma_value_is(s, g, best as int);
        }
        best
    }
}

/// The value of a list is less than the number of its words, and at most the number of
/// letters that stand in some word and have not been guessed.
pub proof fn lemma_list_bounds(words: Seq<&[u8]>, g: Set<u8>)
    requires
        words.len() > 0,
    ensures
        value(slice_words(words), g) < words.len(),
        value(slice_words(words), g) <= open_count(slice_words(words), g, 256),
{
    let s = slice_words(words);
    let views = Seq::new(words.len(), |i: int| words[i]@);
    assert(s =~= views.to_set()) by {
        assert forall|w: Seq<u8>| s.contains(w) == views.to_set().contains(w) by {
            if s.contains(w) {
                let i = choose|i: int| 0 <= i < words.len() && (#[trigger] words[i])@ == w;
                assert(views[i] == w);
            }
            if views.contains(w) {
                let i = choose|i: int| 0 <= i < views.len() && views[i] == w;
                assert(words[i]@ == w);
            }
        }
    }
    views.lemma_cardinality_of_set();
    vstd::seq_lib::seq_to_set_is_finite(views);
    assert(s.contains(views[0]));
    if s.len() == 0 {
        s.lemma_len0_is_empty();
    }
    lemma_value_below_words(s, g);
    lemma_value_at_most_risky(s, g);
}

/// The order of the words does not matter, nor does repeating a word.
pub proof fn lemma_list_reordered(words: Seq<&[u8]>, others: Seq<&[u8]>, g: Set<u8>)
    requires
        forall|i: int| 0 <= i < words.len() ==> exists|j: int| 0 <= j < others.len() && others[j]@ == (#[trigger] words[i])@,
        forall|j: int| 0 <= j < others.len() ==> exists|i: int| 0 <= i < words.len() && words[i]@ == (#[trigger] others[j])@,
    ensures
        value(slice_words(others), g) == value(slice_words(words), g),
{
    let s = slice_words(words);
    let t = slice_words(others);
    assert forall|w: Seq<u8>| #[trigger] s.contains(w) implies t.contains(w) by {
        let i = choose|i: int| 0 <= i < words.len() && (#[trigger] words[i])@ == w;
        let j = choose|j: int| 0 <= j < others.len() && others[j]@ == words[i]@;
        assert(others[j]@ == w);
    }
    assert forall|w: Seq<u8>| #[trigger] t.contains(w) implies s.contains(w) by {
        let j = choose|j: int| 0 <= j < others.len() && (#[trigger] others[j])@ == w;
        let i = choose|i: int| 0 <= i < words.len() && words[i]@ == others[j]@;
        assert(words[i]@ == w);
    }
    assert(s =~= t);
}

/// Renaming the letters of all words, and those guessed alike, keeps the value.
pub proof fn lemma_list_renamed(words: Seq<&[u8]>, others: Seq<&[u8]>, g: Set<u8>, h: spec_fn(u8) -> u8)
    requires
        is_renaming(h),
        words.len() == others.len(),
        forall|i: int| 0 <= i < words.len() ==> (#[trigger] others[i])@ == renamed(words[i]@, h),
    ensures
        value(slice_words(others), g.map(h)) == value(slice_words(words), g),
{
    let s = slice_words(words);
    let t = slice_words(others);
    assert(t =~= renamed_words(s, h)) by {
        assert forall|v: Seq<u8>| t.contains(v) == renamed_words(s, h).contains(v) by {
            if t.contains(v) {
                let i = choose|i: int| 0 <= i < others.len() && (#[trigger] others[i])@ == v;
                assert(s.contains(words[i]@));
            }
            if renamed_words(s, h).contains(v) {
                let w = choose|w: Seq<u8>| #[trigger] s.contains(w) && renamed(w, h) == v;
                let i = choose|i: int| 0 <= i < words.len() && (#[trigger] words[i])@ == w;
                assert(others[i]@ == v);
            }
        }
    }
    lemma_value_renamed(s, g, h);
}

/// Putting the places of all words in another order keeps the value.
pub proof fn lemma_list_moved(words: Seq<&[u8]>, others: Seq<&[u8]>, g: Set<u8>, p: Seq<usize>)
    requires
        perm_of(p, 0, p.len() as int),
        p.len() <= usize::MAX,
        words.len() == others.len(),
        forall|i: int| 0 <= i < words.len() ==> (#[trigger] words[i])@.len() == p.len(),
        forall|i: int| 0 <= i < words.len() ==> (#[trigger] others[i])@ == moved_word(words[i]@, p),
    ensures
        value(slice_words(others), g) == value(slice_words(words), g),
{
    let s = slice_words(words);
    let t = slice_words(others);
    assert(t =~= moved_words(s, p)) by {
        assert forall|v: Seq<u8>| t.contains(v) == moved_words(s, p).contains(v) by {
            if t.contains(v) {
                let i = choose|i: int| 0 <= i < others.len() && (#[trigger] others[i])@ == v;
                assert(s.contains(words[i]@));
            }
            if moved_words(s, p).contains(v) {
                let w = choose|w: Seq<u8>| #[trigger] s.contains(w) && moved_word(w, p) == v;
                let i = choose|i: int| 0 <= i < words.len() && (#[trigger] words[i])@ == w;
                assert(others[i]@ == v);
            }
        }
    }
    lemma_value_moved(s, g, p);
}

} // verus!
