//! Warming a table for serving: exact entries for the positions that a player
//! can bring about with any sequence of guesses.
use rustc_hash::FxHashSet;
use vstd::prelude::*;

use crate::game::letters::{
    bit_of, bits_below, holds, is_lower, lemma_bits_below, lemma_test_letter, letter_bit, letters, LetterSet,
};
use crate::game::rules::{is_open, lemma_at_most_25};
use crate::solver::bounds::lemma_open_lower;
use crate::solver::canon::{form_key, key_of_form};
use crate::solver::dedup::{dedup_and_form, lemma_dedup_lists, position_form, position_key};
use crate::solver::memoized::lemma_fold_unique;
use crate::solver::partition::{group, is_partition, lemma_group, short_words};
use crate::solver::required::{is_fold, lemma_add_counts, lemma_more_letters};
use crate::solver::search::{exact_kept, keys_kept, lemma_dedup_distinct, lemma_dedup_self, MemoizedSolverInner, SearchState};
use crate::solver::signature::{chosen, idx_ok, lemma_chosen_plain, position_value, signatures};
use crate::solver::table::{seen_insert, table_get, table_map};
use crate::solver::trust::{
    lemma_dedup_reachable, lemma_fold_reachable, lemma_group_reachable, reachable,
};
use crate::solver::tt::{cache_unpack, claims, tt_bound, BOUND_EXACT};

verus! {

/// The key has an exact entry.
pub open spec fn has_exact(table: Map<u128, u32>, key: u128) -> bool {
    table.contains_key(key) && tt_bound(table[key]) == BOUND_EXACT
}

/// Every key of the set has an exact entry.
pub open spec fn all_exact(table: Map<u128, u32>, keys: Set<u128>) -> bool {
    forall|key: u128| #[trigger] keys.contains(key) ==> has_exact(table, key)
}

/// A lookup of the key may find an exact entry.
pub open spec fn may_read<D: Fn(u128) -> Option<u32>>(disk: D, key: u128) -> bool {
    exists|packed: u32| #[trigger] disk.ensures((key,), Some(packed)) && tt_bound(packed) == BOUND_EXACT
}

/// Every lookup of the key finds an exact entry.
pub open spec fn will_read<D: Fn(u128) -> Option<u32>>(disk: D, key: u128) -> bool {
    forall|stored: Option<u32>| #[trigger]
        disk.ensures((key,), stored) ==> stored is Some && tt_bound(stored->0) == BOUND_EXACT
}

/// The key needs no search: it has an exact entry, or it has none and the disk does.
pub open spec fn is_ready<D: Fn(u128) -> Option<u32>>(disk: D, table: Map<u128, u32>, key: u128) -> bool {
    has_exact(table, key) || (!table.contains_key(key) && will_read(disk, key))
}

/// The key may have been served without a search.
pub open spec fn may_be_ready<D: Fn(u128) -> Option<u32>>(disk: D, table: Map<u128, u32>, key: u128) -> bool {
    has_exact(table, key) || may_read(disk, key)
}

/// The table has gained nothing but exact entries from the disk.
pub open spec fn only_read<D: Fn(u128) -> Option<u32>>(disk: D, before: Map<u128, u32>, after: Map<u128, u32>) -> bool {
    &&& keys_kept(before, after)
    &&& forall|key: u128| #[trigger]
        after.contains_key(key) ==> (before.contains_key(key) && after[key] == before[key]) || (has_exact(after, key) && may_read(
            disk,
            key,
        ))
}

/// What the number of searches says of the keys: there are no more searches than
/// keys, there is none where no key needs one, and where there is none every key had
/// an exact entry or got one from the disk.
pub open spec fn searches_counted<D: Fn(u128) -> Option<u32>>(disk: D, before: Map<u128, u32>, keys: Set<u128>, searches: nat) -> bool {
    &&& keys.finite()
    &&& searches <= keys.len()
    &&& (forall|key: u128| #[trigger] keys.contains(key) ==> is_ready(disk, before, key)) ==> searches == 0
    &&& searches == 0 ==> forall|key: u128| #[trigger] keys.contains(key) ==> may_be_ready(disk, before, key)
}

/// How a walk counts its searches, on the keys that it visits for the first time. A
/// count at the largest number stays there.
pub open spec fn counted<D: Fn(u128) -> Option<u32>>(
    disk: D,
    before: Map<u128, u32>,
    after: Map<u128, u32>,
    old_keys: Set<u128>,
    keys: Set<u128>,
    old_count: usize,
    count: usize,
) -> bool {
    &&& old_count <= count
    &&& old_keys.subset_of(keys)
    &&& exact_kept(before, after)
    &&& old_keys.finite() ==> keys.finite() && count - old_count <= keys.len() - old_keys.len()
    &&& old_count == count && old_count < usize::MAX ==> only_read(disk, before, after)
    &&& old_count == count && old_count < usize::MAX ==> forall|key: u128| #[trigger]
        keys.contains(key) && !old_keys.contains(key) ==> may_be_ready(disk, before, key)
    &&& old_count < usize::MAX && (forall|key: u128| #[trigger]
        keys.contains(key) && !old_keys.contains(key) ==> is_ready(disk, before, key)) ==> count == old_count
}

/// Two walks, one after the other, count as one.
proof fn lemma_count_on<D: Fn(u128) -> Option<u32>>(
    disk: D,
    tables: (Map<u128, u32>, Map<u128, u32>, Map<u128, u32>),
    keys: (Set<u128>, Set<u128>, Set<u128>),
    counts: (usize, usize, usize),
)
    requires
        counted(disk, tables.0, tables.1, keys.0, keys.1, counts.0, counts.1),
        counted(disk, tables.1, tables.2, keys.1, keys.2, counts.1, counts.2),
    ensures
        counted(disk, tables.0, tables.2, keys.0, keys.2, counts.0, counts.2),
{
    assert(exact_kept(tables.0, tables.2)) by {
        assert forall|key: u128| #[trigger]
            tables.0.contains_key(key) && tt_bound(tables.0[key]) == BOUND_EXACT implies tables.2.contains_key(key) && tt_bound(
            tables.2[key],
        ) == BOUND_EXACT by {
            assert(tables.1.contains_key(key));
        }
    }
    if counts.0 == counts.2 && counts.0 < usize::MAX {
        lemma_read_on(disk, tables.0, tables.1, tables.2);
        assert forall|key: u128| #[trigger] keys.2.contains(key) && !keys.0.contains(key) implies may_be_ready(disk, tables.0, key) by {
            lemma_still_ready(disk, tables.0, tables.1, key);
        }
    }
    if counts.0 < usize::MAX && (forall|key: u128| #[trigger]
        keys.2.contains(key) && !keys.0.contains(key) ==> is_ready(disk, tables.0, key)) {
        assert forall|key: u128| #[trigger] keys.1.contains(key) && !keys.0.contains(key) implies is_ready(disk, tables.0, key) by {
            assert(keys.2.contains(key));
        }
        assert forall|key: u128| #[trigger] keys.2.contains(key) && !keys.1.contains(key) implies is_ready(disk, tables.1, key) by {
            lemma_still_ready(disk, tables.0, tables.1, key);
        }
    }
}

/// A key that needs no search needs none after reading either.
proof fn lemma_still_ready<D: Fn(u128) -> Option<u32>>(disk: D, before: Map<u128, u32>, after: Map<u128, u32>, key: u128)
    requires
        only_read(disk, before, after),
        exact_kept(before, after),
    ensures
        is_ready(disk, before, key) ==> is_ready(disk, after, key),
        may_be_ready(disk, after, key) ==> may_be_ready(disk, before, key),
{
    if has_exact(before, key) {
        assert(before.contains_key(key));
    }
    if has_exact(after, key) {
        assert(after.contains_key(key));
    }
}

/// Reading and reading on is reading.
proof fn lemma_read_on<D: Fn(u128) -> Option<u32>>(disk: D, a: Map<u128, u32>, b: Map<u128, u32>, c: Map<u128, u32>)
    requires
        only_read(disk, a, b),
        only_read(disk, b, c),
        exact_kept(b, c),
    ensures
        only_read(disk, a, c),
{
    assert forall|key: u128| #[trigger] c.contains_key(key) implies (a.contains_key(key) && c[key] == a[key]) || (has_exact(c, key)
        && may_read(disk, key)) by {
        if b.contains_key(key) && c[key] == b[key] && !(a.contains_key(key) && b[key] == a[key]) {
            assert(has_exact(b, key));
        }
    }
}

/// The position needs no entry, or its key is in the set.
pub open spec fn covered(words: Seq<Vec<u8>>, k: nat, keys: Set<u128>, idx: Seq<usize>, masked: u32) -> bool {
    forall|f: u32| #[trigger]
        is_fold(words, idx, masked, f) ==> signatures(words, idx, f).len() <= 1 || keys.contains(
            position_key(words, idx, f, k),
        )
}

/// Every answer to every guess at the position is covered.
pub open spec fn answers_covered(words: Seq<Vec<u8>>, k: nat, keys: Set<u128>, d: Seq<usize>, f: u32) -> bool {
    forall|l: u8, m: u32|
        #![trigger group(words, d, l, m)]
        is_open(chosen(words, d), letters(f), l) && group(words, d, l, m).len() > 1 ==> covered(
            words,
            k,
            keys,
            group(words, d, l, m),
            f | bit_of(l),
        )
}

/// The positions that were walked through: their keys are in the set, and so are
/// those of everything that can follow them.
pub open spec fn walked(words: Seq<Vec<u8>>, k: nat, keys: Set<u128>, positions: Set<(Seq<usize>, u32)>) -> bool {
    forall|p: (Seq<usize>, u32)| #[trigger]
        positions.contains(p) ==> keys.contains(position_key(words, p.0, p.1, k)) && answers_covered(
            words,
            k,
            keys,
            p.0,
            p.1,
        )
}

/// Every key is that of a position that was walked through.
pub open spec fn keys_walked(words: Seq<Vec<u8>>, k: nat, keys: Set<u128>, positions: Set<(Seq<usize>, u32)>) -> bool {
    forall|key: u128| #[trigger]
        keys.contains(key) ==> exists|p: (Seq<usize>, u32)| #[trigger]
            positions.contains(p) && position_key(words, p.0, p.1, k) == key
}

/// More keys cover more.
proof fn lemma_walked_grows(
    words: Seq<Vec<u8>>,
    k: nat,
    keys: Set<u128>,
    more: Set<u128>,
    positions: Set<(Seq<usize>, u32)>,
)
    requires
        walked(words, k, keys, positions),
        keys.subset_of(more),
    ensures
        walked(words, k, more, positions),
{
    assert forall|p: (Seq<usize>, u32)| #[trigger] positions.contains(p) implies more.contains(
        position_key(words, p.0, p.1, k),
    ) && answers_covered(words, k, more, p.0, p.1) by {
        assert(keys.contains(position_key(words, p.0, p.1, k)));
        assert forall|l: u8, m: u32|
            #![trigger group(words, p.0, l, m)]
            is_open(chosen(words, p.0), letters(p.1), l) && group(words, p.0, l, m).len() > 1 implies covered(
            words,
            k,
            more,
            group(words, p.0, l, m),
            p.1 | bit_of(l),
        ) by {
            lemma_covered_grows(words, k, keys, more, group(words, p.0, l, m), p.1 | bit_of(l));
        }
    }
}

proof fn lemma_covered_grows(
    words: Seq<Vec<u8>>,
    k: nat,
    keys: Set<u128>,
    more: Set<u128>,
    idx: Seq<usize>,
    masked: u32,
)
    requires
        covered(words, k, keys, idx, masked),
        keys.subset_of(more),
    ensures
        covered(words, k, more, idx, masked),
{
}

impl<'a, D: Fn(u128) -> Option<u32>, S: Fn() -> bool> MemoizedSolverInner<'a, D, S> {
    /// Makes sure that a position has an exact entry, searching where it has
    /// none. Returns whether it had to.
    fn ensure_exact(&self, st: &mut SearchState, d: &Vec<usize>, folded: LetterSet, form: &Vec<u8>) -> (searched: bool)
        requires
            self.wf(),
            old(st).wf(),
            self.patient(),
            !old(st).stopped,
            idx_ok(d@, self.words@.len()),
            d@.len() > 0,
        ensures
            final(st).wf(),
            !final(st).stopped,
            final(st).root@ == old(st).root@,
            final(st).root_masked@ == old(st).root_masked@,
            exact_kept(table_map(old(st).cache), table_map(final(st).cache)),
            has_exact(table_map(final(st).cache), form_key(form@)),
            is_ready(*self.disk, table_map(old(st).cache), form_key(form@)) ==> !searched,
            !searched ==> may_be_ready(*self.disk, table_map(old(st).cache), form_key(form@)),
            !searched ==> only_read(*self.disk, table_map(old(st).cache), table_map(final(st).cache)),
            self.trusted(*old(st)) && self.within(*old(st), d@, folded) && form@ == position_form(
                self.words@,
                d@,
                folded,
                self.k as nat,
            ) ==> self.trusted(*final(st)),
    {
        let ghost st0 = *st;
        let ghost h = self.trusted(*st) && self.within(*st, d@, folded) && form@ == position_form(
            self.words@,
            d@,
            folded,
            self.k as nat,
        );
        let key: u128 = key_of_form(form);
        let need_solve: bool = match table_get(&st.cache, key) {
            Some(packed) => {
                let (_v, _l, bound) = cache_unpack(packed);
                bound != BOUND_EXACT
            },
            None => {
                let stored: Option<u32> = (self.disk)(key);
                match stored {
                    Some(packed) => {
                        let (val, best, bound) = cache_unpack(packed);
                        if bound == BOUND_EXACT {
                            proof {
                                if h {
                                    assert(claims(packed, position_value(self.words@, d@, folded) as int)) by {
                                        reveal(MemoizedSolverInner::trusted);
                                        assert(reachable(self.words@, st0.root@, st0.root_masked@, d@, folded));
                                        assert(key == position_key(self.words@, d@, folded, self.k as nat));
                                        assert(self.disk.ensures((position_key(self.words@, d@, folded, self.k as nat),), stored));
                                    }
                                }
                            }
                            let letter: u8 = match best {
                                Some(l) => l,
                                None => 0,
                            };
                            assert(may_read(*self.disk, key)) by {
                                assert(self.disk.ensures((key,), Some(packed)));
                            }
                            self.store_exact_as(st, form, val, letter, Ghost(d@), Ghost(folded));
                            false
                        } else {
                            true
                        }
                    },
                    None => true,
                }
            },
        };
        if need_solve {
            proof {
                lemma_bits_below(folded, 26);
                lemma_chosen_plain(self.words@, d@, self.k as nat);
                lemma_at_most_25(chosen(self.words@, d@), letters(folded), self.k as nat);
            }
            let v: u32 = self.solve_subset(st, d.as_slice(), folded, 0, u32::MAX);
            let (exact, letter): (bool, u8) = match table_get(&st.cache, key) {
                Some(packed) => {
                    let (_v, best, bound) = cache_unpack(packed);
                    (bound == BOUND_EXACT, match best {
                        Some(l) => l,
                        None => 0,
                    })
                },
                None => (false, 0),
            };
            if !exact {
                self.store_exact_as(st, form, v, letter, Ghost(d@), Ghost(folded));
            }
        }
        need_solve
    }

    /// Walks through every position that can follow this one and makes sure that
    /// each has an exact entry. A position whose key has been visited is not
    /// walked through again.
    pub(crate) fn warm_recursive(
        &self,
        st: &mut SearchState,
        indices: &[usize],
        masked: LetterSet,
        solved: &mut usize,
        visited: &mut FxHashSet<u128>,
    ) -> (positions: Ghost<Set<(Seq<usize>, u32)>>)
        requires
            self.wf(),
            old(st).wf(),
            self.patient(),
            !old(st).stopped,
            idx_ok(indices@, self.words@.len()),
        ensures
            final(st).wf(),
            !final(st).stopped,
            final(st).root@ == old(st).root@,
            final(st).root_masked@ == old(st).root_masked@,
            exact_kept(table_map(old(st).cache), table_map(final(st).cache)),
            old(visited)@.subset_of(final(visited)@),
            all_exact(table_map(old(st).cache), old(visited)@) ==> all_exact(table_map(final(st).cache), final(visited)@),
            indices@.len() > 1 ==> covered(self.words@, self.k as nat, final(visited)@, indices@, masked),
            walked(self.words@, self.k as nat, final(visited)@, positions@),
            keys_walked(self.words@, self.k as nat, final(visited)@.difference(old(visited)@), positions@),
            counted(
                *self.disk,
                table_map(old(st).cache),
                table_map(final(st).cache),
                old(visited)@,
                final(visited)@,
                *old(solved),
                *final(solved),
            ),
            self.trusted(*old(st)) && self.within(*old(st), indices@, masked) ==> self.trusted(*final(st)),
        decreases 26 - bits_below(masked, 26),
    {
        let ghost words = self.words@;
        let ghost k = self.k as nat;
        let ghost empty = Set::<(Seq<usize>, u32)>::empty();
        if indices.len() <= 1 {
            return Ghost(empty);
        }
        let ghost idx = indices@;
        let ghost root = st.root@;
        let ghost rm = st.root_masked@;
        let ghost h = self.trusted(*st) && self.within(*st, idx, masked);
        let (folded, _splitting) = self.data.analyze_required_letters(Ghost(self.words@), Ghost(self.k as nat), indices, masked);
        let (deduped, form) = dedup_and_form(self.words, indices, folded);
        let cache_key: u128 = key_of_form(&form);
        let ghost d = deduped@;
        proof {
            lemma_dedup_lists(words, idx, folded, d);
            lemma_dedup_self(words, folded, d);
            lemma_dedup_distinct(words, idx, folded, d);
            assert forall|f: u32| #[trigger] is_fold(words, idx, masked, f) implies f == folded by {
                lemma_fold_unique(words, idx, masked, f, folded);
            }
            if h {
                assert(idx_ok(root, words.len())) by {
                    reveal(MemoizedSolverInner::trusted);
                }
                lemma_fold_reachable(words, k, root, rm, idx, masked, folded);
                lemma_dedup_reachable(words, root, rm, idx, folded, d);
            }
            lemma_more_letters(masked, folded, 26);
            lemma_bits_below(folded, 26);
            assert(short_words(words));
        }
        if deduped.len() <= 1 {
            return Ghost(empty);
        }
        let ghost before = visited@;
        if !seen_insert(visited, cache_key) {
            proof {
                assert(visited@ =~= before);
            }
            return Ghost(empty);
        }
        if self.ensure_exact(st, &deduped, folded, &form) {
            *solved = (*solved).saturating_add(1);
        }
        assert(counted(*self.disk, table_map(old(st).cache), table_map(st.cache), before, visited@, *old(solved), *solved)) by {
            assert(visited@.contains(cache_key) && !before.contains(cache_key));
        }
        let ghost mut positions = Set::<(Seq<usize>, u32)>::empty();
        let present: LetterSet = self.data.present_letters(Ghost(self.words@), Ghost(self.k as nat), deduped.as_slice(), folded);
        let mut li: u8 = 0;
        while li < 26
            invariant
                li <= 26,
                self.wf(),
                st.wf(),
                self.patient(),
                !st.stopped,
                words == self.words@,
                k == self.k as nat,
                d == deduped@,
                idx_ok(d, words.len()),
                d.no_duplicates(),
                short_words(words),
                st.root@ == root,
                st.root_masked@ == rm,
                root == old(st).root@,
                rm == old(st).root_masked@,
                bits_below(masked, 26) <= bits_below(folded, 26),
                h ==> self.trusted(*st) && reachable(words, root, rm, d, folded) && idx_ok(root, words.len()),
                forall|l: u8| holds(present, l) == #[trigger] is_open(chosen(words, d), letters(folded), l),
                exact_kept(table_map(old(st).cache), table_map(st.cache)),
                before == old(visited)@,
                before.insert(cache_key).subset_of(visited@),
                all_exact(table_map(old(st).cache), before) ==> all_exact(table_map(st.cache), visited@),
                walked(words, k, visited@, positions),
                keys_walked(words, k, visited@.difference(before.insert(cache_key)), positions),
                counted(*self.disk, table_map(old(st).cache), table_map(st.cache), before, visited@, *old(solved), *solved),
                forall|l: u8, m: u32|
                    #![trigger group(words, d, l, m)]
                    l < 97 + li && is_open(chosen(words, d), letters(folded), l) && group(words, d, l, m).len() > 1 ==> covered(
                        words,
                        k,
                        visited@,
                        group(words, d, l, m),
                        folded | bit_of(l),
                    ),
            decreases 26 - li,
        {
            let letter: u8 = 97 + li;
            proof {
                lemma_test_letter(present, letter);
            }
            if present & letter_bit(letter) != 0 {
                let new_masked: LetterSet = folded | letter_bit(letter);
                let parts = self.data.partition(Ghost(self.words@), Ghost(self.k as nat), deduped.as_slice(), letter);
                proof {
                    assert(is_open(chosen(words, d), letters(folded), letter));
                    lemma_add_counts(folded, letter, 26);
                    lemma_bits_below(new_masked, 26);
                }
                let mut a: usize = 0;
                while a < parts.len()
                    invariant
                        a <= parts@.len(),
                        li < 26,
                        letter == 97 + li,
                        self.wf(),
                        st.wf(),
                        self.patient(),
                        !st.stopped,
                        words == self.words@,
                        k == self.k as nat,
                        d == deduped@,
                        idx_ok(d, words.len()),
                        d.no_duplicates(),
                        short_words(words),
                        is_lower(letter),
                        !holds(folded, letter),
                        new_masked == folded | bit_of(letter),
                        bits_below(masked, 26) < bits_below(new_masked, 26) <= 26,
                        is_partition(words, d, letter, parts@),
                        st.root@ == root,
                        st.root_masked@ == rm,
                        root == old(st).root@,
                        rm == old(st).root_masked@,
                        h ==> self.trusted(*st) && reachable(words, root, rm, d, folded) && idx_ok(root, words.len()),
                        exact_kept(table_map(old(st).cache), table_map(st.cache)),
                        before == old(visited)@,
                        before.insert(cache_key).subset_of(visited@),
                        all_exact(table_map(old(st).cache), before) ==> all_exact(table_map(st.cache), visited@),
                        walked(words, k, visited@, positions),
                        keys_walked(words, k, visited@.difference(before.insert(cache_key)), positions),
                        counted(*self.disk, table_map(old(st).cache), table_map(st.cache), before, visited@, *old(solved), *solved),
                        forall|l: u8, m: u32|
                            #![trigger group(words, d, l, m)]
                            l < 97 + li && is_open(chosen(words, d), letters(folded), l) && group(words, d, l, m).len() > 1 ==> covered(
                                words,
                                k,
                                visited@,
                                group(words, d, l, m),
                                folded | bit_of(l),
                            ),
                        forall|b: int|
                            0 <= b < a && (#[trigger] parts@[b]).1@.len() > 1 ==> covered(
                                words,
                                k,
                                visited@,
                                parts@[b].1@,
                                new_masked,
                            ),
                    decreases parts@.len() - a,
                {
                    let subset: &Vec<usize> = &parts[a].1;
                    if subset.len() > 1 {
                        let ghost keys0 = visited@;
                        let ghost table0 = table_map(st.cache);
                        let ghost pos0 = positions;
                        let ghost solved0 = *solved;
                        proof {
                            let part = parts@[a as int];
                            assert(part.1@ == group(words, d, letter, part.0) && part.1@.len() > 0);
                            lemma_group(words, d, letter, part.0);
                            if h {
                                lemma_group_reachable(words, k, root, rm, d, folded, letter, part.0);
                            }
                        }
                        let more = self.warm_recursive(st, subset.as_slice(), new_masked, solved, visited);
                        proof {
                            positions = positions.union(more@);
                            lemma_count_on(
                                *self.disk,
                                (table_map(old(st).cache), table0, table_map(st.cache)),
                                (before, keys0, visited@),
                                (*old(solved), solved0, *solved),
                            );
                            lemma_walked_grows(words, k, keys0, visited@, pos0);
                            assert(walked(words, k, visited@, positions));
                            assert forall|key: u128| #[trigger] visited@.difference(before.insert(cache_key)).contains(key) implies exists|p: (Seq<usize>, u32)| #[trigger]
                                positions.contains(p) && position_key(words, p.0, p.1, k) == key by {
                                if keys0.contains(key) {
                                    assert(keys0.difference(before.insert(cache_key)).contains(key));
                                    let p = choose|p: (Seq<usize>, u32)| #[trigger] pos0.contains(p) && position_key(words, p.0, p.1, k) == key;
                                    assert(positions.contains(p));
                                } else {
                                    assert(visited@.difference(keys0).contains(key));
                                    let p = choose|p: (Seq<usize>, u32)| #[trigger] more@.contains(p) && position_key(words, p.0, p.1, k) == key;
                                    assert(positions.contains(p));
                                }
                            }
                            assert forall|b: int| 0 <= b < a + 1 && (#[trigger] parts@[b]).1@.len() > 1 implies covered(
                                words,
                                k,
                                visited@,
                                parts@[b].1@,
                                new_masked,
                            ) by {
                                if b < a {
                                    lemma_covered_grows(words, k, keys0, visited@, parts@[b].1@, new_masked);
                                }
                            }
                            assert forall|l: u8, m: u32|
                                #![trigger group(words, d, l, m)]
                                l < 97 + li && is_open(chosen(words, d), letters(folded), l) && group(words, d, l, m).len() > 1 implies covered(
                                words,
                                k,
                                visited@,
                                group(words, d, l, m),
                                folded | bit_of(l),
                            ) by {
                                lemma_covered_grows(words, k, keys0, visited@, group(words, d, l, m), folded | bit_of(l));
                            }
                        }
                    }
                    a += 1;
                }
                proof {
                    assert forall|l: u8, m: u32|
                        #![trigger group(words, d, l, m)]
                        l < 97 + li + 1 && is_open(chosen(words, d), letters(folded), l) && group(words, d, l, m).len() > 1 implies covered(
                        words,
                        k,
                        visited@,
                        group(words, d, l, m),
                        folded | bit_of(l),
                    ) by {
                        if l == letter {
                            lemma_group_is_part(words, d, l, m, parts@);
                        }
                    }
                }
            }
            li += 1;
        }
        proof {
            let pos0 = positions;
            positions = positions.insert((d, folded));
            assert(answers_covered(words, k, visited@, d, folded)) by {
                lemma_chosen_plain(words, d, k);
                assert forall|l: u8, m: u32|
                    #![trigger group(words, d, l, m)]
                    is_open(chosen(words, d), letters(folded), l) && group(words, d, l, m).len() > 1 implies covered(
                    words,
                    k,
                    visited@,
                    group(words, d, l, m),
                    folded | bit_of(l),
                ) by {
                    lemma_open_lower(chosen(words, d), letters(folded), k, l);
                }
            }
            assert forall|key: u128| #[trigger] visited@.difference(before).contains(key) implies exists|p: (Seq<usize>, u32)| #[trigger]
                positions.contains(p) && position_key(words, p.0, p.1, k) == key by {
                if key == cache_key {
                    assert(positions.contains((d, folded)));
                } else {
                    assert(visited@.difference(before.insert(cache_key)).contains(key));
                    let p = choose|p: (Seq<usize>, u32)| #[trigger] pos0.contains(p) && position_key(words, p.0, p.1, k) == key;
                    assert(positions.contains(p));
                }
            }
        }
        Ghost(positions)
    }
}

/// A group with words in it is one of the parts.
proof fn lemma_group_is_part(words: Seq<Vec<u8>>, d: Seq<usize>, l: u8, m: u32, parts: Seq<(u32, Vec<usize>)>)
    requires
        is_partition(words, d, l, parts),
        group(words, d, l, m).len() > 0,
        idx_ok(d, words.len()),
        short_words(words),
    ensures
        exists|b: int| 0 <= b < parts.len() && (#[trigger] parts[b]).1@ == group(words, d, l, m),
{
    let g = group(words, d, l, m);
    lemma_group(words, d, l, m);
    assert(g.contains(g[0]));
    assert(d.contains(g[0]));
    let t = choose|t: int| 0 <= t < d.len() && d[t] == g[0];
    assert(crate::solver::partition::has_part(parts, crate::game::letters::place_mask(words[d[t] as int]@, l)));
}

} // verus!
