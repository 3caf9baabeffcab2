//! The game tree level by level.
use rustc_hash::FxHashSet;
use vstd::prelude::*;

use crate::game::letters::{bit_of, holds, is_lower, lemma_test_letter, letter_bit, place_mask, LetterSet};
use crate::precompute::parts::partition_by_letter;
use crate::seqs::lemma_filter;
use crate::solver::dedup::position_key;
use crate::solver::memoized::{all_indices, index_list, lemma_empty_key, lemma_fold_unique, solvable, word_len};
use crate::solver::partition::{group, has_part, is_partition, lemma_group, short_words};
use crate::solver::serving::{
    canonical_hash_for_words, fold_of, fold_required_letters, lemma_fold_of, serving_key,
};
use crate::solver::signature::idx_ok;
use crate::solver::table::{seen_insert, seen_new};
use crate::survey::bitvec::{increasing, lemma_increasing_unique, BitVec};

verus! {

/// A position of a level: its words, and the guessed letters together with those
/// that every word holds at the same places.
#[derive(Debug, Clone)]
pub struct Position {
    pub words: BitVec,
    pub masked: LetterSet,
}

impl Position {
    /// The position has these words, in increasing order, of a list of `n`.
    pub open spec fn stands_for(&self, n: nat, list: Seq<usize>) -> bool {
        &&& self.words.lists(list)
        &&& self.words.size() == list.len()
        &&& self.words.blocks() == (n + 63) / 64
        &&& idx_ok(list, n)
        &&& list.len() > 0
    }

    /// The position belongs to a list of `n` words.
    pub open spec fn ok(&self, n: nat) -> bool {
        exists|list: Seq<usize>| #[trigger] self.stands_for(n, list)
    }

    /// The words of the position, in increasing order.
    pub open spec fn list(&self, n: nat) -> Seq<usize> {
        choose|list: Seq<usize>| #[trigger] self.stands_for(n, list)
    }

    /// The table key of the position.
    pub open spec fn key(&self, words: Seq<Vec<u8>>) -> u128 {
        position_key(words, self.list(words.len()), self.masked, word_len(words))
    }
}

/// A position has one list of words.
proof fn lemma_list(p: Position, n: nat, list: Seq<usize>)
    requires
        p.stands_for(n, list),
    ensures
        p.ok(n),
        p.list(n) == list,
{
    let other = p.list(n);
    assert forall|i: usize| #[trigger] list.contains(i) == other.contains(i) by {
        assert(list.contains(i) == p.words.member(i as int));
        assert(other.contains(i) == p.words.member(i as int));
    }
    lemma_increasing_unique(list, other);
}

/// A part of an increasing list is increasing.
proof fn lemma_group_increasing(words: Seq<Vec<u8>>, idx: Seq<usize>, l: u8, m: u32)
    requires
        increasing(idx),
    ensures
        increasing(group(words, idx, l, m)),
{
    lemma_filter_increasing(idx, |i: usize| place_mask(words[i as int]@, l) == m);
}

proof fn lemma_filter_increasing(s: Seq<usize>, f: spec_fn(usize) -> bool)
    requires
        increasing(s),
    ensures
        increasing(s.filter(f)),
    decreases s.len(),
{
    reveal(Seq::filter);
    if s.len() > 0 {
        let t = s.drop_last();
        lemma_filter_increasing(t, f);
        lemma_filter(t, f);
        let r = t.filter(f);
        assert forall|i: int| 0 <= i < r.len() implies r[i] < s.last() by {
            assert(t.contains(r[i]));
            let j = choose|j: int| 0 <= j < t.len() && t[j] == r[i];
            assert(s[j] == t[j]);
        }
    }
}

/// The position of some words with some letters guessed, and its key.
pub fn make_position(words: &[Vec<u8>], indices: &[usize], masked: LetterSet) -> (r: (Position, u128))
    requires
        solvable(words@),
        indices@.len() > 0,
        indices@.len() <= u32::MAX,
        increasing(indices@),
        idx_ok(indices@, words@.len()),
    ensures
        r.0.ok(words@.len()),
        r.0.list(words@.len()) == indices@,
        r.0.masked == fold_of(words@, indices@, masked),
        r.1 == serving_key(words@, indices@, masked),
        r.1 == r.0.key(words@),
{
    let folded: LetterSet = fold_required_letters(words, indices, masked);
    let hash: u128 = canonical_hash_for_words(words, indices, folded);
    let n: usize = words.len();
    let p = Position { words: BitVec::from_indices(indices, n), masked: folded };
    proof {
        lemma_fold_of(words@, indices@, masked);
        lemma_fold_unique(words@, indices@, masked, folded, fold_of(words@, indices@, masked));
        assert(indices@[0] < words@.len());
        assert(words@[indices@[0] as int]@.len() == word_len(words@));
        if word_len(words@) == 0 {
            lemma_empty_key(words@, indices@, folded);
        }
        assert(p.stands_for(words@.len(), indices@));
        lemma_list(p, words@.len(), indices@);
    }
    (p, hash)
}

/// The position before any guess, and its key.
pub fn root_position(words: &[Vec<u8>]) -> (r: (Position, u128))
    requires
        solvable(words@),
        0 < words@.len() <= u32::MAX,
    ensures
        r.0.ok(words@.len()),
        r.0.list(words@.len()) == all_indices(words@.len()),
        r.0.masked == fold_of(words@, all_indices(words@.len()), 0),
        r.1 == r.0.key(words@),
{
    let all = index_list(words.len());
    make_position(words, all.as_slice(), 0)
}

/// The set holds the key of every answer to letter `l` that leaves several words.
pub open spec fn answers_seen(words: Seq<Vec<u8>>, p: Position, l: u8, keys: Set<u128>) -> bool {
    forall|m: u32|
        (#[trigger] group(words, p.list(words.len()), l, m)).len() > 1 ==> keys.contains(
            serving_key(words, group(words, p.list(words.len()), l, m), p.masked | bit_of(l)),
        )
}

/// The set holds the keys of everything that guesses up to letter `end` lead to.
pub open spec fn guesses_seen(words: Seq<Vec<u8>>, p: Position, end: int, keys: Set<u128>) -> bool {
    forall|l: u8| is_lower(l) && l < end && !#[trigger] holds(p.masked, l) ==> answers_seen(words, p, l, keys)
}

/// Position `q` is what an answer to a letter leaves of `p`.
pub open spec fn is_below(words: Seq<Vec<u8>>, p: Position, q: Position, l: u8, m: u32) -> bool {
    let g = group(words, p.list(words.len()), l, m);
    &&& is_lower(l) && !holds(p.masked, l)
    &&& q.list(words.len()) == g
    &&& g.len() > 1
    &&& q.masked == fold_of(words, g, p.masked | bit_of(l))
}

/// Position `q` is below some position of the level.
pub open spec fn from_level(words: Seq<Vec<u8>>, level: Seq<Position>, q: Position) -> bool {
    exists|i: int, l: u8, m: u32| 0 <= i < level.len() && #[trigger] is_below(words, level[i], q, l, m)
}

/// The new positions belong to the list, lie below the level, have keys that were not
/// in the set before, each its own, and the set afterwards has those keys in addition.
pub open spec fn is_new_level(
    words: Seq<Vec<u8>>,
    level: Seq<Position>,
    out: Seq<Position>,
    before: Set<u128>,
    after: Set<u128>,
) -> bool {
    &&& forall|i: int|
        0 <= i < out.len() ==> (#[trigger] out[i]).ok(words.len()) && from_level(words, level, out[i]) && !before.contains(
            out[i].key(words),
        )
    &&& forall|i: int, j: int| 0 <= i < j < out.len() ==> (#[trigger] out[i]).key(words) != (#[trigger] out[j]).key(words)
    &&& forall|k: u128| #[trigger]
        after.contains(k) == (before.contains(k) || exists|i: int| 0 <= i < out.len() && (#[trigger] out[i]).key(words) == k)
}

proof fn lemma_new_position(
    words: Seq<Vec<u8>>,
    level: Seq<Position>,
    out: Seq<Position>,
    before: Set<u128>,
    after: Set<u128>,
    q: Position,
)
    requires
        is_new_level(words, level, out, before, after),
        q.ok(words.len()),
        from_level(words, level, q),
        !after.contains(q.key(words)),
    ensures
        is_new_level(words, level, out.push(q), before, after.insert(q.key(words))),
{
    let longer = out.push(q);
    let key = q.key(words);
    let wider = after.insert(key);
    assert forall|i: int| 0 <= i < out.len() implies (#[trigger] out[i]).key(words) != key by {
        assert(after.contains(out[i].key(words)));
    }
    assert forall|i: int| 0 <= i < longer.len() implies (#[trigger] longer[i]).ok(words.len()) && from_level(words, level, longer[i])
        && !before.contains(longer[i].key(words)) by {
        if i < out.len() {
            assert(longer[i] == out[i]);
        }
    }
    assert forall|i: int, j: int| 0 <= i < j < longer.len() implies (#[trigger] longer[i]).key(words) != (#[trigger] longer[j]).key(words) by {
        assert(longer[i] == out[i]);
        if j < out.len() {
            assert(longer[j] == out[j]);
        }
    }
    assert forall|k: u128| #[trigger] wider.contains(k) == (before.contains(k) || exists|i: int| 0 <= i < longer.len() && (#[trigger] longer[i]).key(words) == k) by {
        assert(after.contains(k) == (before.contains(k) || exists|i: int| 0 <= i < out.len() && (#[trigger] out[i]).key(words) == k));
        if exists|i: int| 0 <= i < out.len() && (#[trigger] out[i]).key(words) == k {
            let i = choose|i: int| 0 <= i < out.len() && (#[trigger] out[i]).key(words) == k;
            assert(longer[i].key(words) == k);
        }
        if k == key {
            assert(longer[out.len() as int].key(words) == k);
        }
        if exists|i: int| 0 <= i < longer.len() && (#[trigger] longer[i]).key(words) == k {
            let i = choose|i: int| 0 <= i < longer.len() && (#[trigger] longer[i]).key(words) == k;
            if i < out.len() {
                assert(out[i].key(words) == k);
            }
        }
    }
}

proof fn lemma_guesses_seen_more(words: Seq<Vec<u8>>, p: Position, end: int, keys: Set<u128>, more: Set<u128>)
    requires
        guesses_seen(words, p, end, keys),
        keys.subset_of(more),
    ensures
        guesses_seen(words, p, end, more),
{
    assert forall|l: u8| is_lower(l) && l < end && !#[trigger] holds(p.masked, l) implies answers_seen(words, p, l, more) by {
        assert(answers_seen(words, p, l, keys));
    }
}

/// Add what the answers to one letter leave of a position to the next level.
fn expand_letter(
    words: &[Vec<u8>],
    level: &Vec<Position>,
    at: usize,
    indices: &Vec<usize>,
    letter: u8,
    seen: &mut FxHashSet<u128>,
    out: &mut Vec<Position>,
    Ghost(start): Ghost<Set<u128>>,
)
    requires
        solvable(words@),
        words@.len() <= u32::MAX,
        at < level@.len(),
        level@[at as int].ok(words@.len()),
        indices@ == level@[at as int].list(words@.len()),
        is_lower(letter),
        !holds(level@[at as int].masked, letter),
        is_new_level(words@, level@, old(out)@, start, old(seen)@),
    ensures
        is_new_level(words@, level@, final(out)@, start, final(seen)@),
        old(seen)@.subset_of(final(seen)@),
        answers_seen(words@, level@[at as int], letter, final(seen)@),
{
    let ghost p = level@[at as int];
    let ghost n = words@.len();
    proof {
        assert(p.stands_for(n, indices@));
        assert forall|i: int| 0 <= i < words@.len() implies (#[trigger] words@[i])@.len() <= 32 by {}
    }
    let masked: LetterSet = level[at].masked | letter_bit(letter);
    let parts = partition_by_letter(words, indices.as_slice(), letter);
    let ghost first = seen@;
    let mut a: usize = 0;
    while a < parts.len()
        invariant
            a <= parts@.len(),
            solvable(words@),
            short_words(words@),
            words@.len() <= u32::MAX,
            n == words@.len(),
            at < level@.len(),
            p == level@[at as int],
            p.stands_for(n, indices@),
            indices@ == p.list(n),
            is_lower(letter),
            !holds(p.masked, letter),
            masked == p.masked | bit_of(letter),
            is_partition(words@, indices@, letter, parts@),
            is_new_level(words@, level@, out@, start, seen@),
            first.subset_of(seen@),
            forall|b: int|
                0 <= b < a && (#[trigger] parts@[b]).1@.len() > 1 ==> seen@.contains(serving_key(words@, parts@[b].1@, masked)),
        decreases parts@.len() - a,
    {
        let ghost m = parts@[a as int].0;
        proof {
            lemma_group(words@, indices@, letter, m);
            lemma_group_increasing(words@, indices@, letter, m);
            lemma_increasing_bound(indices@, n);
        }
        if parts[a].1.len() > 1 {
            let (q, key) = make_position(words, parts[a].1.as_slice(), masked);
            let ghost before = seen@;
            assert(is_below(words@, p, q, letter, m));
            assert(from_level(words@, level@, q));
            if seen_insert(seen, key) {
                proof {
                    lemma_new_position(words@, level@, out@, start, before, q);
                }
                out.push(q);
            } else {
                assert(seen@ =~= before);
            }
        }
        a += 1;
    }
    proof {
        assert forall|m: u32| (#[trigger] group(words@, indices@, letter, m)).len() > 1 implies seen@.contains(
            serving_key(words@, group(words@, indices@, letter, m), masked),
        ) by {
            let g = group(words@, indices@, letter, m);
            lemma_group(words@, indices@, letter, m);
            assert(g.contains(g[0]));
            let t = choose|t: int| 0 <= t < indices@.len() && indices@[t] == g[0];
            assert(has_part(parts@, place_mask(words@[indices@[t] as int]@, letter)));
            let b = choose|b: int| 0 <= b < parts@.len() && (#[trigger] parts@[b]).0 == m;
            assert(parts@[b].1@ == g);
        }
    }
}

/// An increasing list of indices is no longer than the list it points into.
proof fn lemma_increasing_bound(list: Seq<usize>, n: nat)
    requires
        increasing(list),
        idx_ok(list, n),
    ensures
        list.len() <= n,
    decreases list.len(),
{
    if list.len() > 0 {
        let last = list.last();
        let shorter = list.drop_last();
        assert forall|t: int| 0 <= t < shorter.len() implies #[trigger] shorter[t] < last as nat by {
            assert(list[t] < list[list.len() - 1]);
        }
        lemma_increasing_bound(shorter, last as nat);
        assert(list[list.len() - 1] < n);
    }
}

/// The next level of the game tree: every position that one more guess leads to and
/// whose key has not been seen, as far as it has several words.
pub fn next_level(words: &[Vec<u8>], level: &Vec<Position>, seen: &mut FxHashSet<u128>) -> (out: Vec<Position>)
    requires
        solvable(words@),
        words@.len() <= u32::MAX,
        words@.len() + 63 <= usize::MAX,
        forall|i: int| 0 <= i < level@.len() ==> (#[trigger] level@[i]).ok(words@.len()),
    ensures
        is_new_level(words@, level@, out@, old(seen)@, final(seen)@),
        forall|i: int| 0 <= i < level@.len() ==> guesses_seen(words@, #[trigger] level@[i], 123, final(seen)@),
{
    let ghost start = seen@;
    let mut out: Vec<Position> = Vec::new();
    assert(is_new_level(words@, level@, out@, start, seen@));
    let mut i: usize = 0;
    while i < level.len()
        invariant
            i <= level@.len(),
            solvable(words@),
            words@.len() <= u32::MAX,
            words@.len() + 63 <= usize::MAX,
            start == old(seen)@,
            forall|j: int| 0 <= j < level@.len() ==> (#[trigger] level@[j]).ok(words@.len()),
            is_new_level(words@, level@, out@, start, seen@),
            forall|j: int| 0 <= j < i ==> guesses_seen(words@, #[trigger] level@[j], 123, seen@),
        decreases level@.len() - i,
    {
        let ghost p = level@[i as int];
        let ghost n = words@.len();
        proof {
            assert(p.ok(n));
            assert(p.stands_for(n, p.list(n)));
        }
        let indices = level[i].words.to_indices();
        proof {
            assert forall|x: usize| #[trigger] indices@.contains(x) == p.list(n).contains(x) by {
                assert(indices@.contains(x) == p.words.member(x as int));
                assert(p.list(n).contains(x) == p.words.member(x as int));
            }
            lemma_increasing_unique(indices@, p.list(n));
        }
        let mut l: u8 = 97;
        while l <= 122
            invariant
                97 <= l <= 123,
                i < level@.len(),
                p == level@[i as int],
                n == words@.len(),
                p.ok(n),
                indices@ == p.list(n),
                solvable(words@),
                words@.len() <= u32::MAX,
                start == old(seen)@,
                is_new_level(words@, level@, out@, start, seen@),
                forall|j: int| 0 <= j < i ==> guesses_seen(words@, #[trigger] level@[j], 123, seen@),
                guesses_seen(words@, p, l as int, seen@),
            decreases 123 - l,
        {
            proof {
                lemma_test_letter(p.masked, l);
            }
            let ghost before = seen@;
            if level[i].masked & letter_bit(l) == 0 {
                expand_letter(words, level, i, &indices, l, seen, &mut out, Ghost(start));
            }
            proof {
                assert forall|j: int| 0 <= j < i implies guesses_seen(words@, #[trigger] level@[j], 123, seen@) by {
                    lemma_guesses_seen_more(words@, level@[j], 123, before, seen@);
                }
                lemma_guesses_seen_more(words@, p, l as int, before, seen@);
                assert forall|c: u8| is_lower(c) && c < l + 1 && !#[trigger] holds(p.masked, c) implies answers_seen(words@, p, c, seen@) by {
                    if c < l {
                        assert(holds(p.masked, c) == holds(p.masked, c));
                    }
                }
            }
            l += 1;
        }
        i += 1;
    }
    out
}

/// An empty set of keys.
pub fn no_keys() -> (r: FxHashSet<u128>)
    ensures
        r@ == Set::<u128>::empty(),
{
    seen_new()
}

/// A set with one more key; tells whether the key was new.
pub fn note_key(seen: &mut FxHashSet<u128>, key: u128) -> (fresh: bool)
    ensures
        final(seen)@ == old(seen)@.insert(key),
        fresh == !old(seen)@.contains(key),
{
    seen_insert(seen, key)
}

} // verus!
