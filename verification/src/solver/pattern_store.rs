//! A growing collection of reveal patterns, each with the words that are possible
//! where it is seen.
use rustc_hash::FxHashMap;
use vstd::prelude::*;

use crate::game::letters::{
    holds, is_lower, lemma_bit_ops, lemma_bit_zero, lemma_has_ops, lemma_has_zero, lemma_mask_bits, letters_of, lower_word, only_letters, place_mask, LetterSet,
};
use crate::game::rules::{at, occurs};
use crate::solver::memoized::index_list;
use crate::solver::partition::{group, has_part, is_partition, lemma_group, partition, short_words};
use crate::solver::patterns::{
    blank, fits, is_pattern, lemma_blank, lemma_matching, lemma_matching_child, lemma_patterns_finite, lemma_reveal,
    lemma_shown_fits, matching, pattern_letters, pattern_set, reveal_at, reveal_pattern, shown, shows,
};
use crate::solver::signature::{idx_ok, list_ok};
use crate::solver::table::{ids_get, ids_insert, ids_new, pattern_ids};

verus! {

/// One pattern with the indices of the words that are possible where it is seen.
pub struct PatternNode {
    pub pattern: Vec<u8>,
    pub matching: Vec<usize>,
}

/// Patterns by number, and their numbers.
pub struct PatternStore {
    pub(crate) nodes: Vec<PatternNode>,
    pub(crate) ids: FxHashMap<Vec<u8>, usize>,
}

impl PatternStore {
    /// Numbers and patterns belong together.
    pub open(crate) spec fn indexed(&self) -> bool {
        &&& forall|p: Seq<u8>| #[trigger]
            pattern_ids(self.ids).contains_key(p) ==> pattern_ids(self.ids)[p] < self.nodes@.len()
                && self.nodes@[pattern_ids(self.ids)[p] as int].pattern@ == p
        &&& forall|id: int|
            0 <= id < self.nodes@.len() ==> pattern_ids(self.ids).contains_key(
                (#[trigger] self.nodes@[id]).pattern@,
            ) && pattern_ids(self.ids)[self.nodes@[id].pattern@] == id
    }

    /// Every pattern is one that the list shows, with its possible words.
    pub open(crate) spec fn holds_patterns(&self, words: Seq<Vec<u8>>) -> bool {
        &&& self.indexed()
        &&& forall|id: int|
            0 <= id < self.nodes@.len() ==> shows(words, (#[trigger] self.nodes@[id]).pattern@)
                && self.nodes@[id].matching@ == matching(words, self.nodes@[id].pattern@)
    }

    /// Pattern `p` is in the store.
    pub open(crate) spec fn has(&self, p: Seq<u8>) -> bool {
        pattern_ids(self.ids).contains_key(p)
    }

    /// What was in `before` is still there, under the same number.
    pub open(crate) spec fn extends(&self, before: PatternStore) -> bool {
        &&& before.nodes@.len() <= self.nodes@.len()
        &&& forall|id: int| 0 <= id < before.nodes@.len() ==> #[trigger] self.nodes@[id] == before.nodes@[id]
        &&& forall|p: Seq<u8>| #[trigger] before.has(p) ==> self.has(p)
    }

    /// Every answer to letter `l` where pattern `p` is seen leads to a pattern in
    /// the store.
    pub open(crate) spec fn expanded(&self, words: Seq<Vec<u8>>, p: Seq<u8>, l: u8) -> bool {
        forall|i: int|
            0 <= i < words.len() && #[trigger] fits(words[i]@, p) && occurs(l, words[i]@) ==> self.has(
                reveal_at(p, l, place_mask(words[i]@, l)),
            )
    }

    /// An empty store.
    pub(crate) fn empty() -> (r: Self)
        ensures
            r.indexed(),
            r.nodes@.len() == 0,
    {
        PatternStore { nodes: Vec::new(), ids: ids_new() }
    }

    /// Adds a pattern, or finds it where it is there already; the words of a
    /// known pattern are kept.
    pub(crate) fn add_pattern(&mut self, pattern: Vec<u8>, words: Vec<usize>) -> (id: usize)
        requires
            old(self).indexed(),
        ensures
            final(self).indexed(),
            final(self).extends(*old(self)),
            id < final(self).nodes@.len(),
            final(self).nodes@[id as int].pattern@ == pattern@,
            old(self).has(pattern@) ==> final(self).nodes@ == old(self).nodes@,
            !old(self).has(pattern@) ==> final(self).nodes@ == old(self).nodes@.push(final(self).nodes@[id as int])
                && final(self).nodes@[id as int].matching@ == words@,
            forall|p: Seq<u8>| #[trigger] final(self).has(p) == (old(self).has(p) || p == pattern@),
    {
        match ids_get(&self.ids, pattern.as_slice()) {
            Some(id) => id,
            None => {
                let id: usize = self.nodes.len();
                let key: Vec<u8> = pattern.clone();
                assert(key@ =~= pattern@);
                ids_insert(&mut self.ids, key, id);
                self.nodes.push(PatternNode { pattern, matching: words });
                id
            },
        }
    }

    /// A store with the blank pattern of length `k`.
    pub(crate) fn with_blank(words: &[Vec<u8>], k: usize) -> (r: Self)
        requires
            list_ok(words@, k as nat),
            words@.len() > 0,
        ensures
            r.holds_patterns(words@),
            r.nodes@.len() == 1,
            r.nodes@[0].pattern@ == blank(k as nat),
            r.has(blank(k as nat)),
    {
        let mut r = PatternStore::empty();
        let mut root: Vec<u8> = Vec::new();
        let mut i: usize = 0;
        while i < k
            invariant
                i <= k,
                root@.len() == i,
                forall|t: int| 0 <= t < i ==> #[trigger] root@[t] == 0,
            decreases k - i,
        {
            root.push(0);
            i += 1;
        }
        assert(root@ =~= blank(k as nat));
        let all = index_list(words.len());
        r.add_pattern(root, all);
        proof {
            lemma_blank(words@, k as nat);
            assert(fits(words@[0]@, blank(k as nat)) && blank(k as nat) == shown(words@[0]@, 0));
            assert(shows(words@, blank(k as nat)));
        }
        r
    }

    /// The open letters where the pattern is seen: those of its words that it
    /// does not show.
    pub(crate) fn useful_letters(&self, words: &[Vec<u8>], k: usize, id: usize) -> (r: LetterSet)
        requires
            list_ok(words@, k as nat),
            self.holds_patterns(words@),
            id < self.nodes@.len(),
        ensures
            only_letters(r),
            forall|l: u8| #[trigger] holds(r, l) == (is_lower(l) && !occurs(l, self.nodes@[id as int].pattern@) && exists|i: int|
                0 <= i < words@.len() && fits(words@[i]@, self.nodes@[id as int].pattern@) && #[trigger] occurs(l, words@[i]@)),
    {
        let node = &self.nodes[id];
        let ghost p = node.pattern@;
        let ghost m = node.matching@;
        proof {
            lemma_pattern_ok(words@, k as nat, p);
            let n = words.len();
            lemma_matching(words@, p);
            lemma_has_zero();
            lemma_bit_zero();
        }
        let revealed: LetterSet = pattern_letters(node.pattern.as_slice());
        let mut present: LetterSet = 0;
        let mut t: usize = 0;
        while t < node.matching.len()
            invariant
                t <= m.len(),
                m == node.matching@,
                idx_ok(m, words@.len()),
                list_ok(words@, k as nat),
                only_letters(present),
                forall|l: u8| #[trigger] holds(present, l) == exists|u: int| 0 <= u < t && occurs(l, words@[#[trigger] m[u] as int]@),
            decreases m.len() - t,
        {
            let ghost before = present;
            let next: u32 = letters_of(words[node.matching[t]].as_slice());
            present |= next;
            proof {
                lemma_has_ops(before, next);
                lemma_bit_ops(before, next);
                assert forall|l: u8| #[trigger] holds(present, l) == exists|u: int| 0 <= u < t + 1 && occurs(l, words@[#[trigger] m[u] as int]@) by {
                    assert(holds(before, l) == exists|u: int| 0 <= u < t && occurs(l, words@[#[trigger] m[u] as int]@));
                    assert(holds(next, l) == occurs(l, words@[m[t as int] as int]@));
                }
            }
            t += 1;
        }
        proof {
            lemma_has_ops(present, !revealed);
            lemma_bit_ops(present, !revealed);
            lemma_has_ops(revealed, 0);
            let r = present & !revealed;
            assert forall|l: u8| #[trigger] holds(r, l) == (is_lower(l) && !occurs(l, p) && exists|i: int|
                0 <= i < words@.len() && fits(words@[i]@, p) && #[trigger] occurs(l, words@[i]@)) by {
                if holds(r, l) {
                    let u = choose|u: int| 0 <= u < m.len() && occurs(l, words@[#[trigger] m[u] as int]@);
                    assert(m.contains(m[u]));
                    assert(fits(words@[m[u] as int]@, p) && occurs(l, words@[m[u] as int]@));
                }
                if is_lower(l) && !occurs(l, p) && exists|i: int| 0 <= i < words@.len() && fits(words@[i]@, p) && #[trigger] occurs(l, words@[i]@) {
                    let i = choose|i: int| 0 <= i < words@.len() && fits(words@[i]@, p) && #[trigger] occurs(l, words@[i]@);
                    assert(m.contains(i as usize));
                    let u = choose|u: int| 0 <= u < m.len() && m[u] == i as usize;
                    assert(occurs(l, words@[m[u] as int]@));
                    assert(holds(present, l));
                }
            }
        }
        present & !revealed
    }

    /// Adds every pattern that an answer to `letter` makes of pattern `id`, and
    /// returns the place mask and the number of each.
    pub(crate) fn expand_letter(&mut self, words: &[Vec<u8>], k: usize, id: usize, letter: u8) -> (succ: Vec<(u32, usize)>)
        requires
            list_ok(words@, k as nat),
            k <= 32,
            old(self).holds_patterns(words@),
            id < old(self).nodes@.len(),
            is_lower(letter),
            !occurs(letter, old(self).nodes@[id as int].pattern@),
        ensures
            final(self).holds_patterns(words@),
            final(self).extends(*old(self)),
            final(self).expanded(words@, old(self).nodes@[id as int].pattern@, letter),
            forall|a: int|
                0 <= a < succ@.len() ==> (#[trigger] succ@[a]).0 != 0 && succ@[a].1 < final(self).nodes@.len()
                    && final(self).nodes@[succ@[a].1 as int].pattern@ == reveal_at(
                    old(self).nodes@[id as int].pattern@,
                    letter,
                    succ@[a].0,
                ),
            forall|i: int|
                0 <= i < words@.len() && #[trigger] fits(words@[i]@, old(self).nodes@[id as int].pattern@) && occurs(letter, words@[i]@)
                    ==> exists|a: int| 0 <= a < succ@.len() && (#[trigger] succ@[a]).0 == place_mask(words@[i]@, letter),
    {
        let ghost p = self.nodes@[id as int].pattern@;
        let ghost m = self.nodes@[id as int].matching@;
        let pattern: Vec<u8> = self.nodes[id].pattern.clone();
        assert(pattern@ =~= p);
        let ghost s0 = *self;
        proof {
            let n = words.len();
            lemma_pattern_ok(words@, k as nat, p);
            lemma_matching(words@, p);
            assert(short_words(words@));
        }
        let parts = partition(words, self.nodes[id].matching.as_slice(), letter);
        let mut succ: Vec<(u32, usize)> = Vec::new();
        let mut a: usize = 0;
        while a < parts.len()
            invariant
                a <= parts@.len(),
                list_ok(words@, k as nat),
                k <= 32,
                words@.len() <= usize::MAX,
                short_words(words@),
                idx_ok(m, words@.len()),
                m == matching(words@, p),
                pattern@ == p,
                p.len() == k,
                is_pattern(p),
                is_lower(letter),
                !occurs(letter, p),
                shows(words@, p),
                is_partition(words@, m, letter, parts@),
                self.holds_patterns(words@),
                self.extends(s0),
                s0 == *old(self),
                p == old(self).nodes@[id as int].pattern@,
                forall|b: int|
                    0 <= b < succ@.len() ==> (#[trigger] succ@[b]).0 != 0 && succ@[b].1 < self.nodes@.len()
                        && self.nodes@[succ@[b].1 as int].pattern@ == reveal_at(p, letter, succ@[b].0),
                forall|b: int|
                    0 <= b < a && (#[trigger] parts@[b]).0 != 0 ==> self.has(reveal_at(p, letter, parts@[b].0))
                        && exists|c: int| 0 <= c < succ@.len() && (#[trigger] succ@[c]).0 == parts@[b].0,
            decreases parts@.len() - a,
        {
            let mask: u32 = parts[a].0;
            if mask != 0 {
                let child: Vec<u8> = reveal_pattern(&pattern, letter, mask);
                let members: Vec<usize> = parts[a].1.clone();
                assert(members@ =~= parts@[a as int].1@);
                proof {
                    let part = parts@[a as int];
                    assert(part.1@ == group(words@, m, letter, mask) && part.1@.len() > 0);
                    lemma_group(words@, m, letter, mask);
                    lemma_matching(words@, p);
                    let first = part.1@[0];
                    assert(part.1@.contains(first));
                    assert(m.contains(first));
                    let w = words@[first as int]@;
                    lemma_mask_bits(w, letter);
                    lemma_matching_child(words@, k as nat, p, first as int, letter);
                    lemma_child_shows(words@, k as nat, p, first as int, letter);
                }
                let ghost before = *self;
                let ghost succ0 = succ@;
                let child_id: usize = self.add_pattern(child, members);
                succ.push((mask, child_id));
                proof {
                    assert(self.has(reveal_at(p, letter, mask)));
                    assert forall|x: int| 0 <= x < self.nodes@.len() implies shows(words@, (#[trigger] self.nodes@[x]).pattern@)
                        && self.nodes@[x].matching@ == matching(words@, self.nodes@[x].pattern@) by {
                        if x < before.nodes@.len() {
                            assert(self.nodes@[x] == before.nodes@[x]);
                        }
                    }
                    assert forall|b: int| 0 <= b < a + 1 && (#[trigger] parts@[b]).0 != 0 implies self.has(reveal_at(p, letter, parts@[b].0))
                        && exists|c: int| 0 <= c < succ@.len() && (#[trigger] succ@[c]).0 == parts@[b].0 by {
                        if b < a {
                            assert(before.has(reveal_at(p, letter, parts@[b].0)));
                            let c = choose|c: int| 0 <= c < succ0.len() && (#[trigger] succ0[c]).0 == parts@[b].0;
                            assert(succ@[c].0 == parts@[b].0);
                        } else {
                            assert(succ@[succ@.len() - 1].0 == parts@[b].0);
                        }
                    }
                }
            }
            a += 1;
        }
        proof {
            lemma_matching(words@, p);
            assert forall|i: int| 0 <= i < words@.len() && #[trigger] fits(words@[i]@, p) && occurs(letter, words@[i]@) implies self.has(
                reveal_at(p, letter, place_mask(words@[i]@, letter)),
            ) && exists|c: int| 0 <= c < succ@.len() && (#[trigger] succ@[c]).0 == place_mask(words@[i]@, letter) by {
                lemma_mask_bits(words@[i]@, letter);
                assert(m.contains(i as usize));
                let t = choose|t: int| 0 <= t < m.len() && m[t] == i as usize;
                assert(has_part(parts@, place_mask(words@[m[t] as int]@, letter)));
                let b = choose|b: int| 0 <= b < parts@.len() && (#[trigger] parts@[b]).0 == place_mask(words@[i]@, letter);
                assert(parts@[b].0 != 0);
            }
        }
        succ
    }
}

/// A pattern that the list shows is well formed.
pub proof fn lemma_pattern_ok(words: Seq<Vec<u8>>, k: nat, p: Seq<u8>)
    requires
        list_ok(words, k),
        shows(words, p),
    ensures
        is_pattern(p),
        p.len() == k,
{
    let (i, m) = choose|i: int, m: u32| 0 <= i < words.len() && p == #[trigger] shown(words[i]@, m);
    lemma_shown_fits(words[i]@, m);
}

/// An answer makes a shown pattern of a shown pattern.
pub proof fn lemma_child_shows(words: Seq<Vec<u8>>, k: nat, p: Seq<u8>, i: int, l: u8)
    requires
        list_ok(words, k),
        k <= 32,
        0 <= i < words.len(),
        fits(words[i]@, p),
        is_pattern(p),
        is_lower(l),
        !occurs(l, p),
        occurs(l, words[i]@),
        shows(words, p),
    ensures
        shows(words, reveal_at(p, l, place_mask(words[i]@, l))),
{
    let (j, m) = choose|j: int, m: u32| 0 <= j < words.len() && p == #[trigger] shown(words[j]@, m);
    let w = words[i]@;
    // The word shows the same pattern for the letters of the pattern.
    lemma_shown_fits(words[j]@, m);
    let q = lemma_fits_shown(w, p, m);
    lemma_reveal(w, p, l);
    assert(p == shown(w, q));
    assert(reveal_at(p, l, place_mask(w, l)) == shown(w, q | crate::game::letters::bit_of(l)));
}

/// A possible word shows the pattern for some set of letters.
pub proof fn lemma_fits_shown(w: Seq<u8>, p: Seq<u8>, m: u32) -> (q: u32)
    requires
        fits(w, p),
        is_pattern(p),
        lower_word(w),
    ensures
        p == shown(w, q),
        forall|l: u8| #[trigger] holds(q, l) == (l != 0 && occurs(l, p)),
{
    let q = lemma_pattern_mask(p, p.len());
    crate::solver::patterns::lemma_fits_places(w, p);
    assert forall|l: u8| #[trigger] holds(q, l) == (l != 0 && occurs(l, p)) by {
        if l != 0 && occurs(l, p) {
            let j = choose|j: int| #[trigger] at(p, j, l);
            assert(j < p.len() && at(p, j, l));
        }
    }
    assert forall|j: int| 0 <= j < p.len() implies p[j] == shown(w, q)[j] by {
        assert(is_lower(w[j]));
        if p[j] != 0 {
            assert(w[j] == p[j]);
            assert(at(p, j, p[j]));
            assert(occurs(w[j], p));
        } else {
            assert(!occurs(w[j], p));
        }
    }
    assert(p =~= shown(w, q));
    q
}

/// The letters of the first `n` places of a pattern, as a set.
proof fn lemma_pattern_mask(p: Seq<u8>, n: nat) -> (q: u32)
    requires
        is_pattern(p),
        n <= p.len(),
    ensures
        forall|l: u8| #[trigger] holds(q, l) == (l != 0 && exists|j: int| j < n && #[trigger] at(p, j, l)),
    decreases n,
{
    if n == 0 {
        lemma_has_zero();
        0
    } else {
        let q = lemma_pattern_mask(p, (n - 1) as nat);
        let b = p[n - 1];
        if b == 0 {
            assert forall|l: u8| #[trigger] holds(q, l) == (l != 0 && exists|j: int| j < n && #[trigger] at(p, j, l)) by {
                assert(holds(q, l) == (l != 0 && exists|j: int| j < n - 1 && #[trigger] at(p, j, l)));
            }
            q
        } else {
            crate::game::letters::lemma_add_letter(q, b);
            let r = q | crate::game::letters::bit_of(b);
            assert forall|l: u8| #[trigger] holds(r, l) == (l != 0 && exists|j: int| j < n && #[trigger] at(p, j, l)) by {
                assert(holds(q, l) == (l != 0 && exists|j: int| j < n - 1 && #[trigger] at(p, j, l)));
                if l == b {
                    assert(at(p, n - 1, l));
                }
            }
            r
        }
    }
}

/// A store has no more patterns than the list shows.
pub(crate) proof fn lemma_store_bounded(store: PatternStore, words: Seq<Vec<u8>>)
    requires
        store.holds_patterns(words),
    ensures
        store.nodes@.len() <= pattern_set(words).len(),
{
    lemma_patterns_finite(words);
    let ps = Seq::new(store.nodes@.len(), |i: int| store.nodes@[i].pattern@);
    assert forall|i: int, j: int| 0 <= i < ps.len() && 0 <= j < ps.len() && i != j implies ps[i] != ps[j] by {
        assert(pattern_ids(store.ids)[store.nodes@[i].pattern@] == i);
        assert(pattern_ids(store.ids)[store.nodes@[j].pattern@] == j);
    }
    ps.unique_seq_to_set();
    assert forall|p: Seq<u8>| ps.to_set().contains(p) implies pattern_set(words).contains(p) by {
        let i = choose|i: int| 0 <= i < ps.len() && ps[i] == p;
        assert(shows(words, store.nodes@[i].pattern@));
    }
    vstd::set_lib::lemma_len_subset(ps.to_set(), pattern_set(words));
}

} // verus!
